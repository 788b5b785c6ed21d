//! Numbers whose arithmetic does not round: the order of operations makes no
//! difference to them, and a quantized row has the value of its dequantized weights.
//!
//! A number stands for an integer. Its arithmetic is exact where each operation gives
//! what the integers give, up to a multiple of a modulus: 0 for numbers without bound,
//! and 2^32 for 32-bit integers that wrap.
use crate::arith::{
    lemma_product_bounds, lemma_sum_bounds, lemma_sum_linear, lemma_sum_same, lemma_sum_split, sum,
    wrap_i32,
};
use crate::q4k::{
    k4_min, k4_scale, q4k_acc, q4k_block, q4k_code, q4k_d, q4k_dmin, q4k_exact_term,
    q4k_int_value, q4k_min_term, q4k_mint, q4k_plain, q4k_scales, q4k_term,
    q4k_term_is_dequantized_dot, q4k_weight, sums_by_32, x_block, x_term, xsum_block,
};
use crate::q6k::{
    lemma_code_range, q6k_acc, q6k_block, q6k_code, q6k_d, q6k_exact_term, q6k_int_value,
    q6k_plain, q6k_scale, q6k_term, q6k_term_is_dequantized_dot, q6k_weight,
};
use crate::q8::block_term;
use crate::scalar::Scalar;
use vstd::arithmetic::mul::lemma_mul_is_associative;
use vstd::prelude::*;

verus! {

/// A multiple of the modulus.
pub open spec fn multiple(k: int, m: int) -> int {
    k * m
}

/// Two integers differ by a multiple of the modulus.
pub open spec fn congruent(a: int, b: int, m: int) -> bool {
    exists|k: int| a - b == #[trigger] multiple(k, m)
}

/// The arithmetic of the numbers is exact, where `v` says which integer a number
/// stands for.
pub open spec fn is_exact<S: Scalar>(v: spec_fn(S) -> int, m: int) -> bool {
    &&& congruent(v(S::zero_spec()), 0, m)
    &&& forall|n: i64| congruent(v(#[trigger] S::of_int_spec(n)), n as int, m)
    &&& forall|a: S, b: S| congruent(v(#[trigger] a.plus_spec(b)), v(a) + v(b), m)
    &&& forall|a: S, b: S| congruent(v(#[trigger] a.minus_spec(b)), v(a) - v(b), m)
    &&& forall|a: S, b: S| congruent(v(#[trigger] a.times_spec(b)), v(a) * v(b), m)
    &&& forall|s: S, a: S, b: S|
        congruent(v(#[trigger] s.mul_plus_spec(a, b)), v(s) + v(a) * v(b), m)
    &&& forall|s: S, a: S, b: S| congruent(v(#[trigger] s.fma_spec(a, b)), v(s) + v(a) * v(b), m)
}

/// 32-bit integers that wrap are exact up to a multiple of 2^32.
pub proof fn integers_are_exact()
    ensures
        is_exact::<i32>(|x: i32| x as int, 0x1_0000_0000),
{
    let v = |x: i32| x as int;
    let m = 0x1_0000_0000int;
    assert forall|x: int| congruent(#[trigger] wrap_i32(x), x, m) by {
        lemma_wrap_congruent(x);
    }
    assert(congruent(v(i32::zero_spec()), 0, m)) by {
        lemma_congruent_same(0, m);
    }
    assert forall|n: i64| congruent(v(#[trigger] i32::of_int_spec(n)), n as int, m) by {
        assert(v(i32::of_int_spec(n)) == wrap_i32(n as int));
    }
    assert forall|a: i32, b: i32| congruent(v(#[trigger] a.plus_spec(b)), v(a) + v(b), m) by {
        assert(v(a.plus_spec(b)) == wrap_i32(a + b));
    }
    assert forall|a: i32, b: i32| congruent(v(#[trigger] a.minus_spec(b)), v(a) - v(b), m) by {
        assert(v(a.minus_spec(b)) == wrap_i32(a - b));
    }
    assert forall|a: i32, b: i32| congruent(v(#[trigger] a.times_spec(b)), v(a) * v(b), m) by {
        assert(v(a.times_spec(b)) == wrap_i32(a * b));
    }
    assert forall|s: i32, a: i32, b: i32|
        congruent(v(#[trigger] s.mul_plus_spec(a, b)), v(s) + v(a) * v(b), m) by {
        assert(v(s.mul_plus_spec(a, b)) == wrap_i32(s + a * b));
    }
    assert forall|s: i32, a: i32, b: i32|
        congruent(v(#[trigger] s.fma_spec(a, b)), v(s) + v(a) * v(b), m) by {
        assert(v(s.fma_spec(a, b)) == wrap_i32(s + a * b));
    }
}

proof fn lemma_wrap_congruent(x: int)
    ensures
        congruent(wrap_i32(x), x, 0x1_0000_0000),
{
    let k = -((x + 0x8000_0000) / 0x1_0000_0000);
    assert(wrap_i32(x) - x == multiple(k, 0x1_0000_0000));
}

// ------------------------------------------------------------------ congruence

pub proof fn lemma_congruent_same(a: int, m: int)
    ensures
        congruent(a, a, m),
{
    assert(multiple(0, m) == 0) by (nonlinear_arith);
}

pub proof fn lemma_congruent_through(a: int, b: int, c: int, m: int)
    requires
        congruent(a, b, m),
        congruent(b, c, m),
    ensures
        congruent(a, c, m),
{
    let i = choose|k: int| a - b == #[trigger] multiple(k, m);
    let j = choose|k: int| b - c == #[trigger] multiple(k, m);
    assert(multiple(i, m) + multiple(j, m) == multiple(i + j, m)) by (nonlinear_arith);
}

pub proof fn lemma_congruent_plus(a: int, b: int, c: int, d: int, m: int)
    requires
        congruent(a, b, m),
        congruent(c, d, m),
    ensures
        congruent(a + c, b + d, m),
        congruent(a - c, b - d, m),
{
    let i = choose|k: int| a - b == #[trigger] multiple(k, m);
    let j = choose|k: int| c - d == #[trigger] multiple(k, m);
    assert(multiple(i, m) + multiple(j, m) == multiple(i + j, m)) by (nonlinear_arith);
    assert(multiple(i, m) - multiple(j, m) == multiple(i - j, m)) by (nonlinear_arith);
}

pub proof fn lemma_congruent_times(a: int, b: int, c: int, d: int, m: int)
    requires
        congruent(a, b, m),
        congruent(c, d, m),
    ensures
        congruent(a * c, b * d, m),
{
    let i = choose|k: int| a - b == #[trigger] multiple(k, m);
    let j = choose|k: int| c - d == #[trigger] multiple(k, m);
    assert(a * c - b * d == multiple(a * j + i * d, m)) by (nonlinear_arith)
        requires
            a - b == i * m,
            c - d == j * m,
    ;
}

pub proof fn lemma_congruent_sum(n: int, f: spec_fn(int) -> int, g: spec_fn(int) -> int, m: int)
    requires
        forall|i: int| 0 <= i < n ==> congruent(#[trigger] f(i), g(i), m),
    ensures
        congruent(sum(n, f), sum(n, g), m),
    decreases n,
{
    if n > 0 {
        lemma_congruent_sum(n - 1, f, g, m);
        assert(congruent(f(n - 1), g(n - 1), m));
        lemma_congruent_plus(sum(n - 1, f), sum(n - 1, g), f(n - 1), g(n - 1), m);
    } else {
        lemma_congruent_same(0, m);
    }
}

/// A product of three numbers.
pub proof fn lemma_three<S: Scalar>(v: spec_fn(S) -> int, m: int, a: S, b: S, c: S)
    requires
        is_exact(v, m),
    ensures
        congruent(v(a.times_spec(b).times_spec(c)), v(a) * v(b) * v(c), m),
{
    let ab = a.times_spec(b);
    lemma_congruent_same(v(c), m);
    lemma_congruent_times(v(ab), v(a) * v(b), v(c), v(c), m);
    assert(congruent(v(ab.times_spec(c)), v(ab) * v(c), m));
    lemma_congruent_through(v(ab.times_spec(c)), v(ab) * v(c), v(a) * v(b) * v(c), m);
}

/// A product of two numbers and an integer.
pub proof fn lemma_two_and<S: Scalar>(v: spec_fn(S) -> int, m: int, a: S, b: S, n: i64)
    requires
        is_exact(v, m),
    ensures
        congruent(v(a.times_spec(b).times_spec(S::of_int_spec(n))), v(a) * v(b) * n, m),
{
    let c = S::of_int_spec(n);
    lemma_three(v, m, a, b, c);
    lemma_congruent_same(v(a) * v(b), m);
    lemma_congruent_times(v(a) * v(b), v(a) * v(b), v(c), n as int, m);
    lemma_congruent_through(
        v(a.times_spec(b).times_spec(c)),
        v(a) * v(b) * v(c),
        v(a) * v(b) * n,
        m,
    );
}

// ---------------------------------------------------------------- Q4_K rows

/// Column `j` of a Q4_K row: its dequantized weight, times the scale of its
/// activations, times its activation.
pub open spec fn q4k_column<S: Scalar>(
    v: spec_fn(S) -> int,
    row: Seq<u8>,
    x: Seq<i8>,
    ys: Seq<S>,
) -> spec_fn(int) -> int {
    |j: int| v(q4k_plain::<S>(q4k_block(row, j / 256), j % 256)) * v(ys[j / 256]) * x[j]
}

proof fn lemma_q4k_small(b: Seq<u8>, x: Seq<i8>, xsum: Seq<i32>)
    requires
        b.len() == 144,
        x.len() == 256,
        xsum.len() == 8,
    ensures
        -0x8000_0000 <= q4k_acc(b, x) <= 0x7fff_ffff,
        -0x100_0000_0000 <= q4k_mint(b, xsum) <= 0x100_0000_0000,
{
    let s = q4k_scales(b);
    let f = q4k_term(b, x);
    assert forall|l: int| 0 <= l < 256 implies -120960 <= #[trigger] f(l) <= 120960 by {
        let (a, c) = (k4_scale(s, l / 32), q4k_code(b, l));
        lemma_product_bounds(a, c, 63, 15);
        lemma_product_bounds(a * c, x[l] as int, 945, 128);
    }
    lemma_sum_bounds(256, f, -120960, 120960);
    let g = q4k_min_term(b, xsum);
    assert forall|j: int| 0 <= j < 8 implies -0x20_0000_0000 <= #[trigger] g(j)
        <= 0x20_0000_0000 by {
        lemma_product_bounds(k4_min(s, j), xsum[j] as int, 64, 0x8000_0000);
    }
    lemma_sum_bounds(8, g, -0x20_0000_0000, 0x20_0000_0000);
}

/// A dequantized weight stands for `d * scale * code - dmin * min`.
pub proof fn lemma_q4k_plain<S: Scalar>(v: spec_fn(S) -> int, m: int, b: Seq<u8>, l: int)
    requires
        is_exact(v, m),
        b.len() == 144,
        0 <= l < 256,
    ensures
        ({
            let w = q4k_weight(b, l);
            let (d, e) = (v(q4k_d::<S>(b)), v(q4k_dmin::<S>(b)));
            congruent(v(q4k_plain::<S>(b, l)), d * w.sc * w.code - e * w.mn, m)
        }),
{
    let w = q4k_weight(b, l);
    let (d, e) = (q4k_d::<S>(b), q4k_dmin::<S>(b));
    let (sc, code, mn) = (
        S::of_int_spec(w.sc as i64),
        S::of_int_spec(w.code as i64),
        S::of_int_spec(w.mn as i64),
    );
    let (p, q) = (d.times_spec(sc).times_spec(code), e.times_spec(mn));
    lemma_two_and(v, m, d, sc, w.code as i64);
    lemma_congruent_same(v(d), m);
    lemma_congruent_times(v(d), v(d), v(sc), w.sc as int, m);
    lemma_congruent_same(w.code as int, m);
    lemma_congruent_times(v(d) * v(sc), v(d) * w.sc, w.code as int, w.code as int, m);
    lemma_congruent_through(v(p), v(d) * v(sc) * w.code, v(d) * w.sc * w.code, m);
    lemma_congruent_same(v(e), m);
    lemma_congruent_times(v(e), v(e), v(mn), w.mn as int, m);
    lemma_congruent_through(v(q), v(e) * v(mn), v(e) * w.mn, m);
    lemma_congruent_plus(v(p), v(d) * w.sc * w.code, v(q), v(e) * w.mn, m);
    lemma_congruent_through(
        v(p.minus_spec(q)),
        v(p) - v(q),
        v(d) * w.sc * w.code - v(e) * w.mn,
        m,
    );
}

/// What one super-block adds to a row is the dot product of its dequantized weights
/// with its scaled activations.
proof fn lemma_q4k_step<S: Scalar>(
    v: spec_fn(S) -> int,
    m: int,
    b: Seq<u8>,
    x: Seq<i8>,
    xsum: Seq<i32>,
    y: S,
)
    requires
        is_exact(v, m),
        b.len() == 144,
        x.len() == 256,
        xsum.len() == 8,
        sums_by_32(xsum, x),
    ensures
        ({
            let acc = S::of_int_spec(q4k_acc(b, x) as i64);
            let mint = S::of_int_spec(q4k_mint(b, xsum) as i64);
            let gain = y.times_spec(q4k_d(b)).times_spec(acc);
            let loss = y.times_spec(q4k_dmin(b)).times_spec(mint);
            congruent(
                v(gain.minus_spec(loss)),
                sum(256, |l: int| v(q4k_plain::<S>(b, l)) * v(y) * x[l]),
                m,
            )
        }),
{
    lemma_q4k_small(b, x, xsum);
    let (acc, mint) = (q4k_acc(b, x), q4k_mint(b, xsum));
    let (d, e) = (q4k_d::<S>(b), q4k_dmin::<S>(b));
    let (vd, ve, vy) = (v(d), v(e), v(y));
    let gain = y.times_spec(d).times_spec(S::of_int_spec(acc as i64));
    let loss = y.times_spec(e).times_spec(S::of_int_spec(mint as i64));
    lemma_two_and(v, m, y, d, acc as i64);
    lemma_two_and(v, m, y, e, mint as i64);
    lemma_congruent_plus(v(gain), vy * vd * acc, v(loss), vy * ve * mint, m);
    lemma_congruent_through(
        v(gain.minus_spec(loss)),
        v(gain) - v(loss),
        vy * vd * acc - vy * ve * mint,
        m,
    );
    let f = q4k_exact_term(b, x, vd, ve);
    q4k_term_is_dequantized_dot(b, x, xsum, vd, ve);
    assert(vy * vd * acc - vy * ve * mint == vy * (vd * acc - ve * mint)) by (nonlinear_arith);
    let zero = |l: int| 0int;
    let g = |l: int| vy * f(l);
    assert forall|l: int| 0 <= l < 256 implies #[trigger] g(l) == vy * f(l) + 0 * zero(l) by {}
    lemma_sum_linear(256, vy, f, 0, zero, g);
    assert(0 * sum(256, zero) == 0) by (nonlinear_arith);
    let h = |l: int| v(q4k_plain::<S>(b, l)) * v(y) * x[l];
    assert forall|l: int| 0 <= l < 256 implies congruent(#[trigger] g(l), h(l), m) by {
        lemma_q4k_plain(v, m, b, l);
        let w = q4k_weight(b, l);
        let (p, q) = (v(q4k_plain::<S>(b, l)), vd * w.sc * w.code - ve * w.mn);
        lemma_congruent_flip(p, q, m);
        lemma_congruent_same(vy * x[l], m);
        lemma_congruent_times(q, p, vy * x[l], vy * x[l], m);
        assert(q * (vy * x[l]) == vy * (q * x[l])) by (nonlinear_arith);
        lemma_mul_is_associative(p, vy, x[l] as int);
    }
    lemma_congruent_sum(256, g, h, m);
    lemma_congruent_through(v(gain.minus_spec(loss)), sum(256, g), sum(256, h), m);
}

pub proof fn lemma_congruent_flip(a: int, b: int, m: int)
    requires
        congruent(a, b, m),
    ensures
        congruent(b, a, m),
{
    let i = choose|k: int| a - b == #[trigger] multiple(k, m);
    assert(-multiple(i, m) == multiple(-i, m)) by (nonlinear_arith);
}

/// The activations' sums by 32 of a whole row.
pub open spec fn row_sums(xsum: Seq<i32>, x: Seq<i8>, n: int) -> bool {
    forall|b: int| 0 <= b < 8 * n ==> #[trigger] xsum[b] == sum(32, block_term(x, b))
}

/// The value of a Q4_K row with one activation scale per 256 is the dot product of its
/// dequantized weights with the scaled activations, where the arithmetic is exact: the
/// integer accumulation loses nothing.
pub proof fn q4k_row_is_dequantized_dot<S: Scalar>(
    v: spec_fn(S) -> int,
    m: int,
    row: Seq<u8>,
    x: Seq<i8>,
    ys: Seq<S>,
    xsum: Seq<i32>,
    n: int,
)
    requires
        is_exact(v, m),
        0 <= n,
        144 * n <= row.len(),
        256 * n <= x.len(),
        n <= ys.len(),
        8 * n <= xsum.len(),
        row_sums(xsum, x, n),
    ensures
        congruent(
            v(q4k_int_value(row, x, ys, xsum, n)),
            sum(256 * n, q4k_column(v, row, x, ys)),
            m,
        ),
    decreases n,
{
    if n > 0 {
        q4k_row_is_dequantized_dot(v, m, row, x, ys, xsum, n - 1);
        let (b, xb, sb, y) = (
            q4k_block(row, n - 1),
            x_block(x, n - 1),
            xsum_block(xsum, n - 1),
            ys[n - 1],
        );
        assert forall|j: int| 0 <= j < 8 implies #[trigger] sb[j] == sum(32, x_term(xb, j)) by {
            let k = 8 * (n - 1) + j;
            assert(sb[j] == xsum[k]);
            lemma_sum_same(32, block_term(x, k), x_term(xb, j));
        }
        lemma_q4k_step(v, m, b, xb, sb, y);
        let f = q4k_column(v, row, x, ys);
        let tail = |l: int| v(q4k_plain::<S>(b, l)) * v(y) * xb[l];
        assert forall|l: int| 0 <= l < 256 implies #[trigger] tail(l) == f(256 * (n - 1) + l) by {
            let j = 256 * (n - 1) + l;
            assert(j / 256 == n - 1 && j % 256 == l);
        }
        lemma_sum_split(256 * (n - 1), 256, f, tail);
        let before = q4k_int_value(row, x, ys, xsum, n - 1);
        let acc = S::of_int_spec(q4k_acc(b, xb) as i64);
        let mint = S::of_int_spec(q4k_mint(b, sb) as i64);
        let step = y.times_spec(q4k_d(b)).times_spec(acc).minus_spec(
            y.times_spec(q4k_dmin(b)).times_spec(mint),
        );
        lemma_congruent_plus(
            v(before),
            sum(256 * (n - 1), f),
            v(step),
            sum(256, tail),
            m,
        );
        lemma_congruent_through(
            v(before.plus_spec(step)),
            v(before) + v(step),
            sum(256 * n, f),
            m,
        );
    }
}

// ---------------------------------------------------------------- Q6_K rows

/// Column `j` of a Q6_K row: its dequantized weight, times the scale of its
/// activations, times its activation.
pub open spec fn q6k_column<S: Scalar>(
    v: spec_fn(S) -> int,
    row: Seq<u8>,
    x: Seq<i8>,
    ys: Seq<S>,
) -> spec_fn(int) -> int {
    |j: int| v(q6k_plain::<S>(q6k_block(row, j / 256), j % 256)) * v(ys[j / 256]) * x[j]
}

proof fn lemma_q6k_small(b: Seq<u8>, x: Seq<i8>)
    requires
        b.len() == 210,
        x.len() == 256,
    ensures
        -0x8000_0000 <= q6k_acc(b, x) <= 0x8000_0000,
{
    let f = q6k_term(b, x);
    assert forall|l: int| 0 <= l < 256 implies -524288 <= #[trigger] f(l) <= 524288 by {
        lemma_code_range(b, l);
        let (a, c) = (q6k_scale(b, l / 16), q6k_code(b, l));
        lemma_product_bounds(a, c, 128, 32);
        lemma_product_bounds(a * c, x[l] as int, 4096, 128);
    }
    lemma_sum_bounds(256, f, -524288, 524288);
}

/// A dequantized weight stands for `d * scale * code`.
pub proof fn lemma_q6k_plain<S: Scalar>(v: spec_fn(S) -> int, m: int, b: Seq<u8>, l: int)
    requires
        is_exact(v, m),
        b.len() == 210,
        0 <= l < 256,
    ensures
        ({
            let w = q6k_weight(b, l);
            congruent(v(q6k_plain::<S>(b, l)), v(q6k_d::<S>(b)) * w.sc * w.code, m)
        }),
{
    let w = q6k_weight(b, l);
    let d = q6k_d::<S>(b);
    let (sc, code) = (S::of_int_spec(w.sc as i64), S::of_int_spec(w.code as i64));
    lemma_two_and(v, m, d, sc, w.code as i64);
    lemma_congruent_same(v(d), m);
    lemma_congruent_times(v(d), v(d), v(sc), w.sc as int, m);
    lemma_congruent_same(w.code as int, m);
    lemma_congruent_times(v(d) * v(sc), v(d) * w.sc, w.code as int, w.code as int, m);
    lemma_congruent_through(
        v(d.times_spec(sc).times_spec(code)),
        v(d) * v(sc) * w.code,
        v(d) * w.sc * w.code,
        m,
    );
}

/// What one super-block adds to a row is the dot product of its dequantized weights
/// with its scaled activations.
proof fn lemma_q6k_step<S: Scalar>(v: spec_fn(S) -> int, m: int, b: Seq<u8>, x: Seq<i8>, y: S)
    requires
        is_exact(v, m),
        b.len() == 210,
        x.len() == 256,
    ensures
        ({
            let acc = S::of_int_spec(q6k_acc(b, x) as i64);
            congruent(
                v(y.times_spec(q6k_d(b)).times_spec(acc)),
                sum(256, |l: int| v(q6k_plain::<S>(b, l)) * v(y) * x[l]),
                m,
            )
        }),
{
    lemma_q6k_small(b, x);
    let acc = q6k_acc(b, x);
    let d = q6k_d::<S>(b);
    let (vd, vy) = (v(d), v(y));
    let gain = y.times_spec(d).times_spec(S::of_int_spec(acc as i64));
    lemma_two_and(v, m, y, d, acc as i64);
    let f = q6k_exact_term(b, x, vd);
    q6k_term_is_dequantized_dot(b, x, vd);
    lemma_mul_is_associative(vy, vd, acc);
    let zero = |l: int| 0int;
    let g = |l: int| vy * f(l);
    assert forall|l: int| 0 <= l < 256 implies #[trigger] g(l) == vy * f(l) + 0 * zero(l) by {}
    lemma_sum_linear(256, vy, f, 0, zero, g);
    assert(0 * sum(256, zero) == 0) by (nonlinear_arith);
    let h = |l: int| v(q6k_plain::<S>(b, l)) * v(y) * x[l];
    assert forall|l: int| 0 <= l < 256 implies congruent(#[trigger] g(l), h(l), m) by {
        lemma_q6k_plain(v, m, b, l);
        let w = q6k_weight(b, l);
        let (p, q) = (v(q6k_plain::<S>(b, l)), vd * w.sc * w.code);
        lemma_congruent_flip(p, q, m);
        lemma_congruent_same(vy * x[l], m);
        lemma_congruent_times(q, p, vy * x[l], vy * x[l], m);
        assert(q * (vy * x[l]) == vy * (q * x[l])) by (nonlinear_arith);
        lemma_mul_is_associative(p, vy, x[l] as int);
    }
    lemma_congruent_sum(256, g, h, m);
    lemma_congruent_through(v(gain), sum(256, g), sum(256, h), m);
}

/// The value of a Q6_K row with one activation scale per 256 is the dot product of its
/// dequantized weights with the scaled activations, where the arithmetic is exact: the
/// integer accumulation loses nothing.
pub proof fn q6k_row_is_dequantized_dot<S: Scalar>(
    v: spec_fn(S) -> int,
    m: int,
    row: Seq<u8>,
    x: Seq<i8>,
    ys: Seq<S>,
    n: int,
)
    requires
        is_exact(v, m),
        0 <= n,
        210 * n <= row.len(),
        256 * n <= x.len(),
        n <= ys.len(),
    ensures
        congruent(
            v(q6k_int_value(row, x, ys, n)),
            sum(256 * n, q6k_column(v, row, x, ys)),
            m,
        ),
    decreases n,
{
    if n > 0 {
        q6k_row_is_dequantized_dot(v, m, row, x, ys, n - 1);
        let (b, xb, y) = (q6k_block(row, n - 1), x_block(x, n - 1), ys[n - 1]);
        lemma_q6k_step(v, m, b, xb, y);
        let f = q6k_column(v, row, x, ys);
        let tail = |l: int| v(q6k_plain::<S>(b, l)) * v(y) * xb[l];
        assert forall|l: int| 0 <= l < 256 implies #[trigger] tail(l) == f(256 * (n - 1) + l) by {
            let j = 256 * (n - 1) + l;
            assert(j / 256 == n - 1 && j % 256 == l);
        }
        lemma_sum_split(256 * (n - 1), 256, f, tail);
        let before = q6k_int_value(row, x, ys, n - 1);
        let step = y.times_spec(q6k_d(b)).times_spec(S::of_int_spec(q6k_acc(b, xb) as i64));
        lemma_congruent_plus(
            v(before),
            sum(256 * (n - 1), f),
            v(step),
            sum(256, tail),
            m,
        );
        lemma_congruent_through(
            v(before.plus_spec(step)),
            v(before) + v(step),
            sum(256 * n, f),
            m,
        );
    }
}

} // verus!
