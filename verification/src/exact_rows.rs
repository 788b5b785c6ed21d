//! Rows whose activations carry a scale for each 32 levels, on numbers whose
//! arithmetic does not round: in whatever lanes and chains a row is added up, it has
//! the value of its dequantized weights.
use crate::arith::{lemma_product_bounds, lemma_sum_linear, lemma_sum_same, lemma_sum_split, sum};
use crate::exact::{
    congruent, is_exact, lemma_congruent_flip, lemma_congruent_plus, lemma_congruent_same,
    lemma_congruent_sum, lemma_congruent_through, lemma_congruent_times, lemma_q4k_plain,
    lemma_q6k_plain, lemma_two_and, row_sums,
};
use crate::lanes::{lane, lanes_add_up, paired, quarter, quarters_add_up, scaled};
use crate::q4k::{
    k4_min, k4_scale, q4k_block, q4k_chain, q4k_code, q4k_d, q4k_dmin, q4k_factor_by,
    q4k_gu_value, q4k_joined, q4k_joined_four, q4k_lane, q4k_low, q4k_low_pairs, q4k_plain,
    q4k_scales, q4k_split_value, q4k_sub_dot, q4k_sub_term, q4k_taken_by, q4k_total, q4k_value, q4k_weight,
    x_block,
};
use crate::q6k::{
    lemma_code_range, q6k_block, q6k_chain, q6k_code, q6k_d, q6k_factor, q6k_joined, q6k_lane,
    q6k_plain, q6k_run_term, q6k_scale, q6k_split_value, q6k_value, q6k_weight,
};
use crate::q8::{
    block_term, q8_joined, q8_lane, q8_split_lane, q8_split_value, q8_term, q8_value,
};
use crate::scalar::Scalar;
use vstd::prelude::*;

verus! {

// ---------------------------------------------------------------------- lanes

/// A step of a lane adds its integer times the scale.
proof fn lemma_scaled<S: Scalar>(v: spec_fn(S) -> int, m: int, acc: S, dot: int, scale: S)
    requires
        is_exact(v, m),
        i64::MIN <= dot <= i64::MAX,
    ensures
        congruent(v(scaled(acc, dot, scale)), v(acc) + dot * v(scale), m),
{
    let n = S::of_int_spec(dot as i64);
    lemma_congruent_same(v(scale), m);
    lemma_congruent_times(v(n), dot, v(scale), v(scale), m);
    lemma_congruent_same(v(acc), m);
    lemma_congruent_plus(v(acc), v(acc), v(n) * v(scale), dot * v(scale), m);
    lemma_congruent_through(
        v(acc.fma_spec(n, scale)),
        v(acc) + v(n) * v(scale),
        v(acc) + dot * v(scale),
        m,
    );
}

/// What four lanes hold together.
pub open spec fn all<S: Scalar>(v: spec_fn(S) -> int, a: S, b: S, c: S, d: S) -> int {
    v(a) + v(b) + v(c) + v(d)
}

/// The sum of four lanes is what they hold together.
pub proof fn lemma_paired<S: Scalar>(v: spec_fn(S) -> int, m: int, a: S, b: S, c: S, d: S)
    requires
        is_exact(v, m),
    ensures
        congruent(v(paired(a, b, c, d)), all(v, a, b, c, d), m),
{
    let (p, q) = (a.plus_spec(b), c.plus_spec(d));
    assert(congruent(v(p), v(a) + v(b), m));
    assert(congruent(v(q), v(c) + v(d), m));
    lemma_congruent_plus(v(p), v(a) + v(b), v(q), v(c) + v(d), m);
    lemma_congruent_through(v(p.plus_spec(q)), v(p) + v(q), v(a) + v(b) + (v(c) + v(d)), m);
}

/// A step of all four lanes adds the sum of their integers times the scale.
pub proof fn lemma_grown<S: Scalar>(
    v: spec_fn(S) -> int,
    m: int,
    a: S,
    b: S,
    c: S,
    d: S,
    w: (int, int, int, int),
    scale: S,
)
    requires
        is_exact(v, m),
        i64::MIN <= w.0 <= i64::MAX,
        i64::MIN <= w.1 <= i64::MAX,
        i64::MIN <= w.2 <= i64::MAX,
        i64::MIN <= w.3 <= i64::MAX,
    ensures
        congruent(
            all(
                v,
                scaled(a, w.0, scale),
                scaled(b, w.1, scale),
                scaled(c, w.2, scale),
                scaled(d, w.3, scale),
            ),
            all(v, a, b, c, d) + (w.0 + w.1 + w.2 + w.3) * v(scale),
            m,
        ),
{
    let s = v(scale);
    let (x, y, z, u) = (
        v(scaled(a, w.0, scale)),
        v(scaled(b, w.1, scale)),
        v(scaled(c, w.2, scale)),
        v(scaled(d, w.3, scale)),
    );
    lemma_scaled(v, m, a, w.0, scale);
    lemma_scaled(v, m, b, w.1, scale);
    lemma_scaled(v, m, c, w.2, scale);
    lemma_scaled(v, m, d, w.3, scale);
    lemma_congruent_plus(x, v(a) + w.0 * s, y, v(b) + w.1 * s, m);
    lemma_congruent_plus(z, v(c) + w.2 * s, u, v(d) + w.3 * s, m);
    lemma_congruent_plus(
        x + y,
        v(a) + w.0 * s + (v(b) + w.1 * s),
        z + u,
        v(c) + w.2 * s + (v(d) + w.3 * s),
        m,
    );
    assert((w.0 + w.1 + w.2 + w.3) * s == w.0 * s + w.1 * s + w.2 * s + w.3 * s)
        by (nonlinear_arith);
}

/// Lanes of bounded products are bounded.
pub proof fn lemma_lane_small(f: spec_fn(int) -> int, n: int, k: int)
    requires
        0 <= n,
        forall|i: int| 0 <= i < 4 * n ==> -k <= #[trigger] f(i) <= k,
    ensures
        forall|i: int| 0 <= i < n ==> -4 * k <= #[trigger] quarter(f, i) <= 4 * k,
{
    reveal(quarter);
    assert forall|i: int| 0 <= i < n implies -4 * k <= #[trigger] quarter(f, i) <= 4 * k by {
        assert(-k <= f(4 * i) <= k && -k <= f(4 * i + 1) <= k && -k <= f(4 * i + 2) <= k && -k
            <= f(4 * i + 3) <= k);
    }
}

/// A run of products with a common factor.
pub proof fn lemma_factored(n: int, g: int, f: spec_fn(int) -> int, h: spec_fn(int) -> int)
    requires
        forall|i: int| 0 <= i < n ==> #[trigger] h(i) == f(i) * g,
    ensures
        sum(n, h) == sum(n, f) * g,
{
    let zero = |i: int| 0int;
    assert forall|i: int| 0 <= i < n implies #[trigger] h(i) == g * f(i) + 0 * zero(i) by {
        assert(f(i) * g == g * f(i)) by (nonlinear_arith);
    }
    lemma_sum_linear(n, g, f, 0, zero, h);
    assert(g * sum(n, f) + 0 * sum(n, zero) == sum(n, f) * g) by (nonlinear_arith);
}

// ----------------------------------------------------------------- 8-bit rows

/// Column `j` of a row of 8-bit weights: weight times activation, times both scales.
pub open spec fn q8_column<S: Scalar>(
    v: spec_fn(S) -> int,
    w: Seq<i8>,
    at: int,
    ws: Seq<S>,
    sat: int,
    x: Seq<i8>,
    xs: Seq<S>,
) -> spec_fn(int) -> int {
    |j: int| w[at + j] * x[j] * (v(ws[sat + j / 32]) * v(xs[j / 32]))
}

/// What block `b` adds to a row is the sum of its columns.
proof fn lemma_q8_block<S: Scalar>(
    v: spec_fn(S) -> int,
    m: int,
    w: Seq<i8>,
    at: int,
    ws: Seq<S>,
    sat: int,
    x: Seq<i8>,
    xs: Seq<S>,
    b: int,
)
    requires
        is_exact(v, m),
        0 <= b,
    ensures
        ({
            let f = q8_term(w, at, x, b);
            let column = q8_column(v, w, at, ws, sat, x, xs);
            &&& congruent(
                sum(32, f) * v(ws[sat + b].times_spec(xs[b])) + sum(32 * b, column),
                sum(32 * (b + 1), column),
                m,
            )
            &&& lane(f, 0) + lane(f, 1) + lane(f, 2) + lane(f, 3) == sum(32, f)
            &&& forall|l: int| 0 <= l < 4 ==> -0x10_0000 <= #[trigger] lane(f, l) <= 0x10_0000
        }),
{
    let f = q8_term(w, at, x, b);
    let column = q8_column(v, w, at, ws, sat, x, xs);
    let g = v(ws[sat + b]) * v(xs[b]);
    assert forall|i: int| 0 <= i < 32 implies -16384 <= #[trigger] f(i) <= 16384 by {
        lemma_product_bounds(w[at + 32 * b + i] as int, x[32 * b + i] as int, 128, 128);
    }
    lemma_lane_small(f, 8, 16384);
    assert forall|l: int| 0 <= l < 4 implies -0x10_0000 <= #[trigger] lane(f, l) <= 0x10_0000 by {
        assert(-65536 <= quarter(f, l) <= 65536 && -65536 <= quarter(f, l + 4) <= 65536);
    }
    lanes_add_up(f);
    let tail = |i: int| f(i) * g;
    lemma_factored(32, g, f, tail);
    assert forall|i: int| 0 <= i < 32 implies #[trigger] tail(i) == column(32 * b + i) by {
        assert((32 * b + i) / 32 == b);
        assert(at + (32 * b + i) == at + 32 * b + i);
    }
    lemma_sum_split(32 * b, 32, column, tail);
    lemma_congruent_same(sum(32, f), m);
    lemma_congruent_times(sum(32, f), sum(32, f), v(ws[sat + b].times_spec(xs[b])), g, m);
    lemma_congruent_same(sum(32 * b, column), m);
    lemma_congruent_plus(
        sum(32, f) * v(ws[sat + b].times_spec(xs[b])),
        sum(32, f) * g,
        sum(32 * b, column),
        sum(32 * b, column),
        m,
    );
}

proof fn lemma_q8_lanes<S: Scalar>(
    v: spec_fn(S) -> int,
    m: int,
    w: Seq<i8>,
    at: int,
    ws: Seq<S>,
    sat: int,
    x: Seq<i8>,
    xs: Seq<S>,
    n: int,
)
    requires
        is_exact(v, m),
        0 <= n,
    ensures
        congruent(
            all(
                v,
                q8_lane(w, at, ws, sat, x, xs, 0, n),
                q8_lane(w, at, ws, sat, x, xs, 1, n),
                q8_lane(w, at, ws, sat, x, xs, 2, n),
                q8_lane(w, at, ws, sat, x, xs, 3, n),
            ),
            sum(32 * n, q8_column(v, w, at, ws, sat, x, xs)),
            m,
        ),
    decreases n,
{
    let column = q8_column(v, w, at, ws, sat, x, xs);
    if n == 0 {
        lemma_four_zeros(v, m);
    } else {
        let k = n - 1;
        lemma_q8_lanes(v, m, w, at, ws, sat, x, xs, k);
        lemma_q8_block(v, m, w, at, ws, sat, x, xs, k);
        let (a, b, c, d) = (
            q8_lane(w, at, ws, sat, x, xs, 0, k),
            q8_lane(w, at, ws, sat, x, xs, 1, k),
            q8_lane(w, at, ws, sat, x, xs, 2, k),
            q8_lane(w, at, ws, sat, x, xs, 3, k),
        );
        let f = q8_term(w, at, x, k);
        let dots = (lane(f, 0), lane(f, 1), lane(f, 2), lane(f, 3));
        let scale = ws[sat + k].times_spec(xs[k]);
        assert(ws[sat + n - 1] == ws[sat + k]);
        lemma_grown(v, m, a, b, c, d, dots, scale);
        lemma_onward(
            all(
                v,
                scaled(a, dots.0, scale),
                scaled(b, dots.1, scale),
                scaled(c, dots.2, scale),
                scaled(d, dots.3, scale),
            ),
            all(v, a, b, c, d),
            sum(32, f) * v(scale),
            sum(32 * k, column),
            sum(32 * n, column),
            m,
        );
    }
}

/// Four zeros hold zero together.
pub proof fn lemma_four_zeros<S: Scalar>(v: spec_fn(S) -> int, m: int)
    requires
        is_exact(v, m),
    ensures
        congruent(
            all(v, S::zero_spec(), S::zero_spec(), S::zero_spec(), S::zero_spec()),
            0,
            m,
        ),
{
    let z = v(S::zero_spec());
    lemma_congruent_plus(z, 0, z, 0, m);
    lemma_congruent_plus(z + z, 0, z + z, 0, m);
}

/// What came before and what is added make up what is there now.
pub proof fn lemma_onward(now: int, before: int, added: int, sum_before: int, sum_now: int, m: int)
    requires
        congruent(now, before + added, m),
        congruent(before, sum_before, m),
        congruent(added + sum_before, sum_now, m),
    ensures
        congruent(now, sum_now, m),
{
    lemma_congruent_same(added, m);
    lemma_congruent_plus(before, sum_before, added, added, m);
    lemma_congruent_through(now, before + added, sum_before + added, m);
    lemma_congruent_through(now, added + sum_before, sum_now, m);
}

/// A row of 8-bit weights has the value of its scaled weights, added up block by
/// block.
pub proof fn q8_row_is_scaled_dot<S: Scalar>(
    v: spec_fn(S) -> int,
    m: int,
    w: Seq<i8>,
    at: int,
    ws: Seq<S>,
    sat: int,
    x: Seq<i8>,
    xs: Seq<S>,
    n: int,
)
    requires
        is_exact(v, m),
        0 <= n,
    ensures
        congruent(
            v(q8_value(w, at, ws, sat, x, xs, n)),
            sum(32 * n, q8_column(v, w, at, ws, sat, x, xs)),
            m,
        ),
{
    lemma_q8_lanes(v, m, w, at, ws, sat, x, xs, n);
    let (a, b, c, d) = (
        q8_lane(w, at, ws, sat, x, xs, 0, n),
        q8_lane(w, at, ws, sat, x, xs, 1, n),
        q8_lane(w, at, ws, sat, x, xs, 2, n),
        q8_lane(w, at, ws, sat, x, xs, 3, n),
    );
    lemma_paired(v, m, a, b, c, d);
    lemma_congruent_through(
        v(paired(a, b, c, d)),
        all(v, a, b, c, d),
        sum(32 * n, q8_column(v, w, at, ws, sat, x, xs)),
        m,
    );
}

/// What the lanes of a chain hold together.
spec fn q8_held<S: Scalar>(
    v: spec_fn(S) -> int,
    w: Seq<i8>,
    at: int,
    ws: Seq<S>,
    sat: int,
    x: Seq<i8>,
    xs: Seq<S>,
    odd: int,
    n: int,
) -> int {
    all(
        v,
        q8_split_lane(w, at, ws, sat, x, xs, 0, odd, n),
        q8_split_lane(w, at, ws, sat, x, xs, 1, odd, n),
        q8_split_lane(w, at, ws, sat, x, xs, 2, odd, n),
        q8_split_lane(w, at, ws, sat, x, xs, 3, odd, n),
    )
}

proof fn lemma_q8_chains<S: Scalar>(
    v: spec_fn(S) -> int,
    m: int,
    w: Seq<i8>,
    at: int,
    ws: Seq<S>,
    sat: int,
    x: Seq<i8>,
    xs: Seq<S>,
    n: int,
)
    requires
        is_exact(v, m),
        0 <= n,
    ensures
        congruent(
            q8_held(v, w, at, ws, sat, x, xs, 0, n) + q8_held(v, w, at, ws, sat, x, xs, 1, n),
            sum(32 * n, q8_column(v, w, at, ws, sat, x, xs)),
            m,
        ),
    decreases n,
{
    let column = q8_column(v, w, at, ws, sat, x, xs);
    if n == 0 {
        lemma_four_zeros(v, m);
        let z = all(v, S::zero_spec(), S::zero_spec(), S::zero_spec(), S::zero_spec());
        lemma_congruent_plus(z, 0, z, 0, m);
    } else {
        let k = n - 1;
        lemma_q8_chains(v, m, w, at, ws, sat, x, xs, k);
        lemma_q8_block(v, m, w, at, ws, sat, x, xs, k);
        let f = q8_term(w, at, x, k);
        let dots = (lane(f, 0), lane(f, 1), lane(f, 2), lane(f, 3));
        let scale = ws[sat + k].times_spec(xs[k]);
        assert(ws[sat + n - 1] == ws[sat + k]);
        let odd = k % 2;
        let (a, b, c, d) = (
            q8_split_lane(w, at, ws, sat, x, xs, 0, odd, k),
            q8_split_lane(w, at, ws, sat, x, xs, 1, odd, k),
            q8_split_lane(w, at, ws, sat, x, xs, 2, odd, k),
            q8_split_lane(w, at, ws, sat, x, xs, 3, odd, k),
        );
        lemma_grown(v, m, a, b, c, d, dots, scale);
        let other = q8_held(v, w, at, ws, sat, x, xs, 1 - odd, k);
        assert(q8_held(v, w, at, ws, sat, x, xs, 1 - odd, n) == other);
        let now = q8_held(v, w, at, ws, sat, x, xs, odd, n);
        let before = q8_held(v, w, at, ws, sat, x, xs, odd, k);
        let added = sum(32, f) * v(scale);
        assert(congruent(now, before + added, m));
        lemma_congruent_same(other, m);
        lemma_congruent_plus(now, before + added, other, other, m);
        assert(before + added + other == before + other + added);
        lemma_onward(
            now + other,
            before + other,
            added,
            sum(32 * k, column),
            sum(32 * n, column),
            m,
        );
    }
}

/// Two numbers added hold what both hold.
proof fn lemma_joined<S: Scalar>(
    v: spec_fn(S) -> int,
    m: int,
    a: (S, S, S, S),
    b: (S, S, S, S),
)
    requires
        is_exact(v, m),
    ensures
        congruent(
            all(
                v,
                a.0.plus_spec(b.0),
                a.1.plus_spec(b.1),
                a.2.plus_spec(b.2),
                a.3.plus_spec(b.3),
            ),
            all(v, a.0, a.1, a.2, a.3) + all(v, b.0, b.1, b.2, b.3),
            m,
        ),
{
    let (x, y, z, u) = (
        v(a.0.plus_spec(b.0)),
        v(a.1.plus_spec(b.1)),
        v(a.2.plus_spec(b.2)),
        v(a.3.plus_spec(b.3)),
    );
    let (p, q, r, s) = (
        v(a.0) + v(b.0),
        v(a.1) + v(b.1),
        v(a.2) + v(b.2),
        v(a.3) + v(b.3),
    );
    lemma_congruent_plus(x, p, y, q, m);
    lemma_congruent_plus(z, r, u, s, m);
    lemma_congruent_plus(x + y, p + q, z + u, r + s, m);
}

/// A row of 8-bit weights has the same value in a chain of even and a chain of odd
/// blocks.
pub proof fn q8_split_row_is_scaled_dot<S: Scalar>(
    v: spec_fn(S) -> int,
    m: int,
    w: Seq<i8>,
    at: int,
    ws: Seq<S>,
    sat: int,
    x: Seq<i8>,
    xs: Seq<S>,
    n: int,
)
    requires
        is_exact(v, m),
        0 <= n,
    ensures
        congruent(
            v(q8_split_value(w, at, ws, sat, x, xs, n)),
            sum(32 * n, q8_column(v, w, at, ws, sat, x, xs)),
            m,
        ),
{
    lemma_q8_chains(v, m, w, at, ws, sat, x, xs, n);
    let e = (
        q8_split_lane(w, at, ws, sat, x, xs, 0, 0, n),
        q8_split_lane(w, at, ws, sat, x, xs, 1, 0, n),
        q8_split_lane(w, at, ws, sat, x, xs, 2, 0, n),
        q8_split_lane(w, at, ws, sat, x, xs, 3, 0, n),
    );
    let o = (
        q8_split_lane(w, at, ws, sat, x, xs, 0, 1, n),
        q8_split_lane(w, at, ws, sat, x, xs, 1, 1, n),
        q8_split_lane(w, at, ws, sat, x, xs, 2, 1, n),
        q8_split_lane(w, at, ws, sat, x, xs, 3, 1, n),
    );
    lemma_joined(v, m, e, o);
    let (a, b, c, d) = (
        q8_joined(w, at, ws, sat, x, xs, 0, n),
        q8_joined(w, at, ws, sat, x, xs, 1, n),
        q8_joined(w, at, ws, sat, x, xs, 2, n),
        q8_joined(w, at, ws, sat, x, xs, 3, n),
    );
    lemma_paired(v, m, a, b, c, d);
    let both = q8_held(v, w, at, ws, sat, x, xs, 0, n) + q8_held(v, w, at, ws, sat, x, xs, 1, n);
    let total = sum(32 * n, q8_column(v, w, at, ws, sat, x, xs));
    lemma_congruent_through(all(v, a, b, c, d), both, total, m);
    lemma_congruent_through(v(paired(a, b, c, d)), all(v, a, b, c, d), total, m);
}

// ---------------------------------------------------------------- Q4_K rows

/// Column `j` of a Q4_K row whose activations carry a scale for each 32: its
/// dequantized weight, times the scale, times its activation.
pub open spec fn q4k_column32<S: Scalar>(
    v: spec_fn(S) -> int,
    row: Seq<u8>,
    x: Seq<i8>,
    xs: Seq<S>,
) -> spec_fn(int) -> int {
    |j: int| v(q4k_plain::<S>(q4k_block(row, j / 256), j % 256)) * v(xs[j / 32]) * x[j]
}

/// A number times two others stands for the product, whichever two meet first.
proof fn lemma_triple<S: Scalar>(v: spec_fn(S) -> int, m: int, first: bool, a: S, b: S, n: i64)
    requires
        is_exact(v, m),
    ensures
        ({
            let c = S::of_int_spec(n);
            let p = if first {
                a.times_spec(b.times_spec(c))
            } else {
                a.times_spec(b).times_spec(c)
            };
            congruent(v(p), v(a) * v(b) * n, m)
        }),
{
    if first {
        let c = S::of_int_spec(n);
        let bc = b.times_spec(c);
        lemma_congruent_same(v(b), m);
        lemma_congruent_times(v(b), v(b), v(c), n as int, m);
        lemma_congruent_through(v(bc), v(b) * v(c), v(b) * n, m);
        lemma_congruent_same(v(a), m);
        lemma_congruent_times(v(a), v(a), v(bc), v(b) * n, m);
        lemma_congruent_through(v(a.times_spec(bc)), v(a) * v(bc), v(a) * (v(b) * n), m);
        assert(v(a) * (v(b) * n) == v(a) * v(b) * n) by (nonlinear_arith);
    } else {
        lemma_two_and(v, m, a, b, n);
    }
}

/// What the minimum of a sub-block takes off stands for the product of its parts.
proof fn lemma_taken<S: Scalar>(
    v: spec_fn(S) -> int,
    m: int,
    hoisted: bool,
    b: Seq<u8>,
    j: int,
    y: S,
    xsum: i32,
)
    requires
        is_exact(v, m),
        b.len() == 144,
        0 <= j < 8,
    ensures
        congruent(
            v(q4k_taken_by(hoisted, b, j, y, xsum)),
            v(y) * v(q4k_dmin::<S>(b)) * k4_min(q4k_scales(b), j) * xsum,
            m,
        ),
{
    let (e, mn) = (q4k_dmin::<S>(b), k4_min(q4k_scales(b), j));
    let c = S::of_int_spec(mn as i64);
    let p = if hoisted {
        y.times_spec(e.times_spec(c))
    } else {
        y.times_spec(e).times_spec(c)
    };
    let q = v(y) * v(e) * mn;
    lemma_triple(v, m, hoisted, y, e, mn as i64);
    let n = S::of_int_spec(xsum as i64);
    lemma_congruent_times(v(p), q, v(n), xsum as int, m);
    lemma_congruent_through(v(p.times_spec(n)), v(p) * v(n), q * xsum, m);
}

/// A dequantized weight times a scaled activation, by its two parts.
proof fn lemma_one_column(d: int, e: int, y: int, sc: int, mn: int, code: int, x: int)
    ensures
        (d * sc * code - e * mn) * (y * x) == (y * d * sc) * (code * x) + (-(y * e * mn)) * x,
{
    let (a, b, t) = (d * sc, e * mn, y * x);
    assert(y * d * sc == y * a) by (nonlinear_arith)
        requires
            a == d * sc,
    ;
    assert(y * e * mn == y * b) by (nonlinear_arith)
        requires
            b == e * mn,
    ;
    assert((a * code - b) * t == a * code * t - b * t) by (nonlinear_arith);
    assert(a * code * t == (y * a) * (code * x)) by (nonlinear_arith)
        requires
            t == y * x,
    ;
    assert(b * t == (y * b) * x) by (nonlinear_arith)
        requires
            t == y * x,
    ;
    assert((-(y * b)) * x == -((y * b) * x)) by (nonlinear_arith);
}

/// What a sub-block of a Q4_K row gives: its codes times its activations, times its
/// scale, less its minimum times the sum of the activations that comes with them.
pub open spec fn q4k_sub_value<S: Scalar>(
    v: spec_fn(S) -> int,
    b: Seq<u8>,
    x: Seq<i8>,
    xsum: i32,
    j: int,
    y: S,
) -> int {
    v(y) * v(q4k_d::<S>(b)) * k4_scale(q4k_scales(b), j) * q4k_sub_dot(b, x, j) - v(y) * v(
        q4k_dmin::<S>(b),
    ) * k4_min(q4k_scales(b), j) * xsum
}

/// What a sub-block adds to the lanes, less what its minimum takes off.
proof fn lemma_q4k_sub<S: Scalar>(
    v: spec_fn(S) -> int,
    m: int,
    hoisted: bool,
    b: Seq<u8>,
    x: Seq<i8>,
    xsum: i32,
    j: int,
    y: S,
)
    requires
        is_exact(v, m),
        b.len() == 144,
        x.len() == 256,
        0 <= j < 8,
    ensures
        ({
            let f = q4k_sub_term(b, x, j);
            &&& congruent(
                sum(32, f) * v(q4k_factor_by(hoisted, b, j, y)) - v(
                    q4k_taken_by(hoisted, b, j, y, xsum),
                ),
                q4k_sub_value(v, b, x, xsum, j, y),
                m,
            )
            &&& lane(f, 0) + lane(f, 1) + lane(f, 2) + lane(f, 3) == sum(32, f)
            &&& forall|l: int| 0 <= l < 4 ==> -0x10_0000 <= #[trigger] lane(f, l) <= 0x10_0000
        }),
{
    let f = q4k_sub_term(b, x, j);
    assert forall|i: int| 0 <= i < 32 implies -1920 <= #[trigger] f(i) <= 1920 by {
        lemma_product_bounds(q4k_code(b, 32 * j + i), x[32 * j + i] as int, 15, 128);
    }
    lemma_lane_small(f, 8, 1920);
    assert forall|l: int| 0 <= l < 4 implies -0x10_0000 <= #[trigger] lane(f, l) <= 0x10_0000 by {
        assert(-7680 <= quarter(f, l) <= 7680 && -7680 <= quarter(f, l + 4) <= 7680);
    }
    lanes_add_up(f);
    let (d, e) = (q4k_d::<S>(b), q4k_dmin::<S>(b));
    let (sc, mn) = (k4_scale(q4k_scales(b), j), k4_min(q4k_scales(b), j));
    let (gain, loss) = (v(y) * v(d) * sc, v(y) * v(e) * mn);
    let (factor, taken) = (
        q4k_factor_by(hoisted, b, j, y),
        q4k_taken_by(hoisted, b, j, y, xsum),
    );
    lemma_triple(v, m, hoisted, y, d, sc as i64);
    lemma_taken(v, m, hoisted, b, j, y, xsum);
    let total = sum(32, f);
    lemma_congruent_same(total, m);
    lemma_congruent_times(total, total, v(factor), gain, m);
    lemma_congruent_plus(total * v(factor), total * gain, v(taken), loss * xsum, m);
    assert(total * gain == gain * total) by (nonlinear_arith);
}

/// Where the sum is that of the activations, a sub-block gives the dot product of its
/// dequantized weights with its scaled activations.
proof fn lemma_q4k_sub_columns<S: Scalar>(
    v: spec_fn(S) -> int,
    m: int,
    b: Seq<u8>,
    x: Seq<i8>,
    xsum: i32,
    j: int,
    y: S,
)
    requires
        is_exact(v, m),
        b.len() == 144,
        x.len() == 256,
        0 <= j < 8,
        xsum == sum(32, |i: int| x[32 * j + i] as int),
    ensures
        congruent(
            q4k_sub_value(v, b, x, xsum, j, y),
            sum(32, |i: int| v(q4k_plain::<S>(b, 32 * j + i)) * v(y) * x[32 * j + i]),
            m,
        ),
{
    let f = q4k_sub_term(b, x, j);
    let (d, e) = (q4k_d::<S>(b), q4k_dmin::<S>(b));
    let (sc, mn) = (k4_scale(q4k_scales(b), j), k4_min(q4k_scales(b), j));
    let (vd, ve, vy) = (v(d), v(e), v(y));
    let (gain, loss) = (vy * vd * sc, vy * ve * mn);
    let xt = |i: int| x[32 * j + i] as int;
    let h = |i: int| v(q4k_plain::<S>(b, 32 * j + i)) * v(y) * x[32 * j + i];
    let g = |i: int| gain * f(i) + (-loss) * xt(i);
    lemma_sum_linear(32, gain, f, -loss, xt, g);
    assert forall|i: int| 0 <= i < 32 implies congruent(#[trigger] g(i), h(i), m) by {
        let l = 32 * j + i;
        lemma_q4k_plain(v, m, b, l);
        let (w, p, xl) = (q4k_weight(b, l), v(q4k_plain::<S>(b, l)), x[l] as int);
        assert(l / 32 == j);
        assert(w.sc == sc && w.mn == mn && w.code == q4k_code(b, l));
        let q = vd * sc * w.code - ve * mn;
        lemma_congruent_flip(p, q, m);
        lemma_congruent_same(vy * xl, m);
        lemma_congruent_times(q, p, vy * xl, vy * xl, m);
        lemma_one_column(vd, ve, vy, sc, mn, w.code as int, xl);
        assert(p * (vy * xl) == p * vy * xl) by (nonlinear_arith);
    }
    lemma_congruent_sum(32, g, h, m);
    let total = sum(32, f);
    assert(gain * total - loss * xsum == gain * total + (-loss) * xsum) by (nonlinear_arith);
}

/// The parts of sub-block `k` of a row: its super-block, the activations that meet
/// it, and its number there.
spec fn q4k_part(row: Seq<u8>, x: Seq<i8>, k: int) -> (Seq<u8>, Seq<i8>, int) {
    (q4k_block(row, k / 8), x_block(x, k / 8), k % 8)
}

/// What sub-block `k` of a row gives.
pub open spec fn q4k_subs<S: Scalar>(
    v: spec_fn(S) -> int,
    row: Seq<u8>,
    x: Seq<i8>,
    xs: Seq<S>,
    xsum: Seq<i32>,
) -> spec_fn(int) -> int {
    |k: int|
        q4k_sub_value(v, q4k_block(row, k / 8), x_block(x, k / 8), xsum[k], k % 8, xs[k])
}

/// Sub-block `k` of a row adds what it gives.
proof fn lemma_q4k_onto<S: Scalar>(
    v: spec_fn(S) -> int,
    m: int,
    hoisted: bool,
    row: Seq<u8>,
    x: Seq<i8>,
    xs: Seq<S>,
    xsum: Seq<i32>,
    k: int,
    n: int,
)
    requires
        is_exact(v, m),
        0 <= k < 8 * n,
        144 * n <= row.len(),
        256 * n <= x.len(),
    ensures
        ({
            let (b, xb, j) = q4k_part(row, x, k);
            let f = q4k_sub_term(b, xb, j);
            let subs = q4k_subs(v, row, x, xs, xsum);
            &&& congruent(
                sum(32, f) * v(q4k_factor_by(hoisted, b, j, xs[k])) - v(
                    q4k_taken_by(hoisted, b, j, xs[k], xsum[k]),
                ) + sum(k, subs),
                sum(k + 1, subs),
                m,
            )
            &&& lane(f, 0) + lane(f, 1) + lane(f, 2) + lane(f, 3) == sum(32, f)
            &&& forall|l: int| 0 <= l < 4 ==> -0x10_0000 <= #[trigger] lane(f, l) <= 0x10_0000
        }),
{
    let (b, xb, j) = q4k_part(row, x, k);
    let subs = q4k_subs(v, row, x, xs, xsum);
    lemma_q4k_sub(v, m, hoisted, b, xb, xsum[k], j, xs[k]);
    let f = q4k_sub_term(b, xb, j);
    let added = sum(32, f) * v(q4k_factor_by(hoisted, b, j, xs[k])) - v(
        q4k_taken_by(hoisted, b, j, xs[k], xsum[k]),
    );
    assert(congruent(added, subs(k), m));
    lemma_congruent_same(sum(k, subs), m);
    lemma_congruent_plus(added, subs(k), sum(k, subs), sum(k, subs), m);
}

/// Where the sums are those of the activations, what the first `k` sub-blocks of a row
/// give is the dot product of their dequantized weights with the scaled activations.
proof fn lemma_q4k_subs_are_columns<S: Scalar>(
    v: spec_fn(S) -> int,
    m: int,
    row: Seq<u8>,
    x: Seq<i8>,
    xs: Seq<S>,
    xsum: Seq<i32>,
    k: int,
    n: int,
)
    requires
        is_exact(v, m),
        0 <= k <= 8 * n,
        144 * n <= row.len(),
        256 * n <= x.len(),
        row_sums(xsum, x, n),
    ensures
        congruent(
            sum(k, q4k_subs(v, row, x, xs, xsum)),
            sum(32 * k, q4k_column32(v, row, x, xs)),
            m,
        ),
    decreases k,
{
    let column = q4k_column32(v, row, x, xs);
    let subs = q4k_subs(v, row, x, xs, xsum);
    if k == 0 {
        lemma_congruent_same(0, m);
    } else {
        let i = k - 1;
        lemma_q4k_subs_are_columns(v, m, row, x, xs, xsum, i, n);
        let (b, xb, j) = q4k_part(row, x, i);
        let (s, y) = (i / 8, xs[i]);
        let xt = |l: int| xb[32 * j + l] as int;
        lemma_sum_same(32, block_term(x, i), xt);
        assert(xsum[i] == sum(32, block_term(x, i)));
        lemma_q4k_sub_columns(v, m, b, xb, xsum[i], j, y);
        let tail = |l: int| v(q4k_plain::<S>(b, 32 * j + l)) * v(y) * xb[32 * j + l];
        assert forall|l: int| 0 <= l < 32 implies #[trigger] tail(l) == column(32 * i + l) by {
            let c = 32 * i + l;
            assert(c / 256 == s && c % 256 == 32 * j + l && c / 32 == i);
            assert(xb[32 * j + l] == x[c]);
        }
        lemma_sum_split(32 * i, 32, column, tail);
        assert(congruent(subs(i), sum(32, tail), m));
        lemma_congruent_plus(
            sum(i, subs),
            sum(32 * i, column),
            subs(i),
            sum(32, tail),
            m,
        );
    }
}

/// What the lanes of the first `k` sub-blocks hold together.
spec fn q4k_held<S: Scalar>(
    v: spec_fn(S) -> int,
    row: Seq<u8>,
    x: Seq<i8>,
    xs: Seq<S>,
    k: int,
) -> int {
    all(
        v,
        q4k_lane(row, x, xs, 0, k),
        q4k_lane(row, x, xs, 1, k),
        q4k_lane(row, x, xs, 2, k),
        q4k_lane(row, x, xs, 3, k),
    )
}

proof fn lemma_q4k_lanes<S: Scalar>(
    v: spec_fn(S) -> int,
    m: int,
    row: Seq<u8>,
    x: Seq<i8>,
    xs: Seq<S>,
    xsum: Seq<i32>,
    k: int,
    n: int,
)
    requires
        is_exact(v, m),
        0 <= k <= 8 * n,
        144 * n <= row.len(),
        256 * n <= x.len(),
    ensures
        congruent(
            q4k_held(v, row, x, xs, k) - v(q4k_low(row, xs, xsum, k)),
            sum(k, q4k_subs(v, row, x, xs, xsum)),
            m,
        ),
    decreases k,
{
    reveal_with_fuel(q4k_lane, 1);
    reveal_with_fuel(q4k_low, 1);
    let subs = q4k_subs(v, row, x, xs, xsum);
    if k == 0 {
        lemma_four_zeros(v, m);
        let z = all(v, S::zero_spec(), S::zero_spec(), S::zero_spec(), S::zero_spec());
        lemma_congruent_plus(z, 0, v(S::zero_spec()), 0, m);
    } else {
        let i = k - 1;
        lemma_q4k_lanes(v, m, row, x, xs, xsum, i, n);
        lemma_q4k_onto(v, m, false, row, x, xs, xsum, i, n);
        let (b, xb, j) = q4k_part(row, x, i);
        let f = q4k_sub_term(b, xb, j);
        let factor = q4k_factor_by(false, b, j, xs[i]);
        let taken = q4k_taken_by(false, b, j, xs[i], xsum[i]);
        let low = q4k_low(row, xs, xsum, i);
        lemma_grown(
            v,
            m,
            q4k_lane(row, x, xs, 0, i),
            q4k_lane(row, x, xs, 1, i),
            q4k_lane(row, x, xs, 2, i),
            q4k_lane(row, x, xs, 3, i),
            (lane(f, 0), lane(f, 1), lane(f, 2), lane(f, 3)),
            factor,
        );
        let (now, before) = (q4k_held(v, row, x, xs, k), q4k_held(v, row, x, xs, i));
        let gain = sum(32, f) * v(factor);
        assert(congruent(now, before + gain, m));
        assert(congruent(v(low.plus_spec(taken)), v(low) + v(taken), m));
        lemma_congruent_plus(
            now,
            before + gain,
            v(low.plus_spec(taken)),
            v(low) + v(taken),
            m,
        );
        lemma_onward(
            now - v(low.plus_spec(taken)),
            before - v(low),
            gain - v(taken),
            sum(i, subs),
            sum(k, subs),
            m,
        );
    }
}

/// A Q4_K row has the value of its sub-blocks, whatever sums come with the activations.
pub proof fn q4k_blocks_are_subs<S: Scalar>(
    v: spec_fn(S) -> int,
    m: int,
    row: Seq<u8>,
    x: Seq<i8>,
    xs: Seq<S>,
    xsum: Seq<i32>,
    cols: int,
)
    requires
        is_exact(v, m),
        0 <= cols,
        144 * (cols / 256) <= row.len(),
        256 * (cols / 256) <= x.len(),
    ensures
        congruent(
            v(q4k_value(row, x, xs, xsum, cols)),
            sum(8 * (cols / 256), q4k_subs(v, row, x, xs, xsum)),
            m,
        ),
{
    let n = cols / 256;
    let k = 8 * n;
    lemma_q4k_lanes(v, m, row, x, xs, xsum, k, n);
    let total = q4k_total(row, x, xs, k);
    let low = q4k_low(row, xs, xsum, k);
    lemma_paired(
        v,
        m,
        q4k_lane(row, x, xs, 0, k),
        q4k_lane(row, x, xs, 1, k),
        q4k_lane(row, x, xs, 2, k),
        q4k_lane(row, x, xs, 3, k),
    );
    lemma_less(v, m, total, low, q4k_held(v, row, x, xs, k), sum(k, q4k_subs(v, row, x, xs, xsum)));
}

/// A Q4_K row has the value of its dequantized weights, where the sums are those of the
/// activations.
pub proof fn q4k_blocks_are_dequantized_dot<S: Scalar>(
    v: spec_fn(S) -> int,
    m: int,
    row: Seq<u8>,
    x: Seq<i8>,
    xs: Seq<S>,
    xsum: Seq<i32>,
    cols: int,
)
    requires
        is_exact(v, m),
        0 <= cols,
        144 * (cols / 256) <= row.len(),
        256 * (cols / 256) <= x.len(),
        row_sums(xsum, x, cols / 256),
    ensures
        congruent(
            v(q4k_value(row, x, xs, xsum, cols)),
            sum(256 * (cols / 256), q4k_column32(v, row, x, xs)),
            m,
        ),
{
    let n = cols / 256;
    q4k_blocks_are_subs(v, m, row, x, xs, xsum, cols);
    lemma_q4k_subs_are_columns(v, m, row, x, xs, xsum, 8 * n, n);
    lemma_congruent_through(
        v(q4k_value(row, x, xs, xsum, cols)),
        sum(8 * n, q4k_subs(v, row, x, xs, xsum)),
        sum(256 * n, q4k_column32(v, row, x, xs)),
        m,
    );
}

/// A total less what is taken off.
proof fn lemma_less<S: Scalar>(
    v: spec_fn(S) -> int,
    m: int,
    total: S,
    low: S,
    held: int,
    whole: int,
)
    requires
        is_exact(v, m),
        congruent(v(total), held, m),
        congruent(held - v(low), whole, m),
    ensures
        congruent(v(total.minus_spec(low)), whole, m),
{
    lemma_congruent_same(v(low), m);
    lemma_congruent_plus(v(total), held, v(low), v(low), m);
    lemma_congruent_through(v(total.minus_spec(low)), v(total) - v(low), held - v(low), m);
    lemma_congruent_through(v(total.minus_spec(low)), held - v(low), whole, m);
}

/// The lanes of a chain.
spec fn q4k_four<S: Scalar>(
    row: Seq<u8>,
    x: Seq<i8>,
    xs: Seq<S>,
    hoisted: bool,
    odd: int,
    n: int,
) -> (S, S, S, S) {
    (
        q4k_chain(row, x, xs, hoisted, 0, odd, n),
        q4k_chain(row, x, xs, hoisted, 1, odd, n),
        q4k_chain(row, x, xs, hoisted, 2, odd, n),
        q4k_chain(row, x, xs, hoisted, 3, odd, n),
    )
}

/// What four lanes hold together.
spec fn all_of<S: Scalar>(v: spec_fn(S) -> int, a: (S, S, S, S)) -> int {
    all(v, a.0, a.1, a.2, a.3)
}

/// What the lanes of a chain hold together.
#[verifier::opaque]
spec fn q4k_chained<S: Scalar>(
    v: spec_fn(S) -> int,
    row: Seq<u8>,
    x: Seq<i8>,
    xs: Seq<S>,
    hoisted: bool,
    odd: int,
    n: int,
) -> int {
    all_of(v, q4k_four(row, x, xs, hoisted, odd, n))
}

/// What sub-block `k` adds.
#[verifier::opaque]
spec fn q4k_gain<S: Scalar>(
    v: spec_fn(S) -> int,
    row: Seq<u8>,
    x: Seq<i8>,
    xs: Seq<S>,
    hoisted: bool,
    k: int,
) -> int {
    let (b, xb, j) = q4k_part(row, x, k);
    sum(32, q4k_sub_term(b, xb, j)) * v(q4k_factor_by(hoisted, b, j, xs[k]))
}

/// What the minimum of sub-block `k` takes off.
#[verifier::opaque]
spec fn q4k_loss<S: Scalar>(
    v: spec_fn(S) -> int,
    row: Seq<u8>,
    xs: Seq<S>,
    xsum: Seq<i32>,
    hoisted: bool,
    k: int,
) -> int {
    v(q4k_taken_by(hoisted, q4k_block(row, k / 8), k % 8, xs[k], xsum[k]))
}

/// What the first `k` sub-blocks give.
#[verifier::opaque]
spec fn q4k_given<S: Scalar>(
    v: spec_fn(S) -> int,
    row: Seq<u8>,
    x: Seq<i8>,
    xs: Seq<S>,
    xsum: Seq<i32>,
    k: int,
) -> int {
    sum(k, q4k_subs(v, row, x, xs, xsum))
}

/// Sub-block `k` adds what it gives, and one step to its chain.
proof fn lemma_q4k_grown<S: Scalar>(
    v: spec_fn(S) -> int,
    m: int,
    row: Seq<u8>,
    x: Seq<i8>,
    xs: Seq<S>,
    xsum: Seq<i32>,
    hoisted: bool,
    odd: int,
    p: int,
    n: int,
)
    requires
        is_exact(v, m),
        odd == 0 || odd == 1,
        0 <= p < 4 * n,
        144 * n <= row.len(),
        256 * n <= x.len(),
    ensures
        ({
            let k = 2 * p + odd;
            let gain = q4k_gain(v, row, x, xs, hoisted, k);
            &&& congruent(
                q4k_chained(v, row, x, xs, hoisted, odd, p + 1),
                q4k_chained(v, row, x, xs, hoisted, odd, p) + gain,
                m,
            )
            &&& congruent(
                gain - q4k_loss(v, row, xs, xsum, hoisted, k) + q4k_given(v, row, x, xs, xsum, k),
                q4k_given(v, row, x, xs, xsum, k + 1),
                m,
            )
        }),
{
    reveal(q4k_chained);
    reveal(q4k_gain);
    reveal(q4k_loss);
    reveal(q4k_given);
    reveal_with_fuel(q4k_chain, 1);
    let k = 2 * p + odd;
    let (b, xb, j) = q4k_part(row, x, k);
    assert(p / 4 == k / 8 && 2 * (p % 4) + odd == j);
    lemma_q4k_onto(v, m, hoisted, row, x, xs, xsum, k, n);
    let f = q4k_sub_term(b, xb, j);
    let a = q4k_four(row, x, xs, hoisted, odd, p);
    lemma_grown(
        v,
        m,
        a.0,
        a.1,
        a.2,
        a.3,
        (lane(f, 0), lane(f, 1), lane(f, 2), lane(f, 3)),
        q4k_factor_by(hoisted, b, j, xs[k]),
    );
}

/// Pair `p` of sub-blocks takes off what its minima take off.
proof fn lemma_q4k_lower<S: Scalar>(
    v: spec_fn(S) -> int,
    m: int,
    row: Seq<u8>,
    xs: Seq<S>,
    xsum: Seq<i32>,
    hoisted: bool,
    p: int,
)
    requires
        is_exact(v, m),
        0 <= p,
    ensures
        congruent(
            v(q4k_low_pairs(row, xs, xsum, hoisted, p + 1)),
            v(q4k_low_pairs(row, xs, xsum, hoisted, p)) + (q4k_loss(
                v,
                row,
                xs,
                xsum,
                hoisted,
                2 * p,
            ) + q4k_loss(v, row, xs, xsum, hoisted, 2 * p + 1)),
            m,
        ),
{
    reveal(q4k_loss);
    reveal_with_fuel(q4k_low_pairs, 1);
    let (b, j, k) = (q4k_block(row, p / 4), 2 * (p % 4), 2 * p);
    assert(k / 8 == p / 4 && k % 8 == j && (k + 1) / 8 == p / 4 && (k + 1) % 8 == j + 1);
    let ta = q4k_taken_by(hoisted, b, j, xs[k], xsum[k]);
    let tb = q4k_taken_by(hoisted, b, j + 1, xs[k + 1], xsum[k + 1]);
    let low = q4k_low_pairs(row, xs, xsum, hoisted, p);
    let both = ta.plus_spec(tb);
    assert(congruent(v(both), v(ta) + v(tb), m));
    lemma_congruent_same(v(low), m);
    lemma_congruent_plus(v(low), v(low), v(both), v(ta) + v(tb), m);
    lemma_congruent_through(
        v(low.plus_spec(both)),
        v(low) + v(both),
        v(low) + (v(ta) + v(tb)),
        m,
    );
}

/// All sums start from zero.
proof fn lemma_q4k_nothing<S: Scalar>(
    v: spec_fn(S) -> int,
    m: int,
    row: Seq<u8>,
    x: Seq<i8>,
    xs: Seq<S>,
    xsum: Seq<i32>,
    hoisted: bool,
)
    requires
        is_exact(v, m),
    ensures
        congruent(
            q4k_chained(v, row, x, xs, hoisted, 0, 0) + q4k_chained(v, row, x, xs, hoisted, 1, 0)
                - v(q4k_low_pairs(row, xs, xsum, hoisted, 0)),
            q4k_given(v, row, x, xs, xsum, 0),
            m,
        ),
{
    reveal(q4k_chained);
    reveal(q4k_given);
    reveal_with_fuel(q4k_chain, 1);
    reveal_with_fuel(q4k_low_pairs, 1);
    lemma_four_zeros(v, m);
    let z = all(v, S::zero_spec(), S::zero_spec(), S::zero_spec(), S::zero_spec());
    lemma_congruent_plus(z, 0, z, 0, m);
    lemma_congruent_plus(z + z, 0, v(S::zero_spec()), 0, m);
}

proof fn lemma_q4k_pairs<S: Scalar>(
    v: spec_fn(S) -> int,
    m: int,
    row: Seq<u8>,
    x: Seq<i8>,
    xs: Seq<S>,
    xsum: Seq<i32>,
    hoisted: bool,
    p: int,
    n: int,
)
    requires
        is_exact(v, m),
        0 <= p <= 4 * n,
        144 * n <= row.len(),
        256 * n <= x.len(),
    ensures
        congruent(
            q4k_chained(v, row, x, xs, hoisted, 0, p) + q4k_chained(v, row, x, xs, hoisted, 1, p)
                - v(q4k_low_pairs(row, xs, xsum, hoisted, p)),
            q4k_given(v, row, x, xs, xsum, 2 * p),
            m,
        ),
    decreases p,
{
    if p == 0 {
        lemma_q4k_nothing(v, m, row, x, xs, xsum, hoisted);
    } else {
        let i = p - 1;
        let k = 2 * i;
        lemma_q4k_pairs(v, m, row, x, xs, xsum, hoisted, i, n);
        lemma_q4k_grown(v, m, row, x, xs, xsum, hoisted, 0, i, n);
        lemma_q4k_grown(v, m, row, x, xs, xsum, hoisted, 1, i, n);
        lemma_q4k_lower(v, m, row, xs, xsum, hoisted, i);
        lemma_two_steps(
            (
                q4k_chained(v, row, x, xs, hoisted, 0, i),
                q4k_chained(v, row, x, xs, hoisted, 1, i),
                v(q4k_low_pairs(row, xs, xsum, hoisted, i)),
            ),
            (
                q4k_chained(v, row, x, xs, hoisted, 0, p),
                q4k_chained(v, row, x, xs, hoisted, 1, p),
                v(q4k_low_pairs(row, xs, xsum, hoisted, p)),
            ),
            (
                q4k_gain(v, row, x, xs, hoisted, k),
                q4k_loss(v, row, xs, xsum, hoisted, k),
            ),
            (
                q4k_gain(v, row, x, xs, hoisted, k + 1),
                q4k_loss(v, row, xs, xsum, hoisted, k + 1),
            ),
            (
                q4k_given(v, row, x, xs, xsum, k),
                q4k_given(v, row, x, xs, xsum, k + 1),
                q4k_given(v, row, x, xs, xsum, 2 * p),
            ),
            m,
        );
    }
}

/// Two sub-blocks add what they give: `was` and `is` hold what both chains hold and
/// what is taken off, `a` and `b` what the sub-blocks add and take off, and `sums`
/// what is given.
proof fn lemma_two_steps(
    was: (int, int, int),
    is: (int, int, int),
    a: (int, int),
    b: (int, int),
    sums: (int, int, int),
    m: int,
)
    requires
        congruent(was.0 + was.1 - was.2, sums.0, m),
        congruent(is.0, was.0 + a.0, m),
        congruent(is.1, was.1 + b.0, m),
        congruent(is.2, was.2 + (a.1 + b.1), m),
        congruent(a.0 - a.1 + sums.0, sums.1, m),
        congruent(b.0 - b.1 + sums.1, sums.2, m),
    ensures
        congruent(is.0 + is.1 - is.2, sums.2, m),
{
    lemma_congruent_plus(is.0, was.0 + a.0, is.1, was.1 + b.0, m);
    lemma_congruent_plus(
        is.0 + is.1,
        was.0 + a.0 + (was.1 + b.0),
        is.2,
        was.2 + (a.1 + b.1),
        m,
    );
    let (added, more) = (a.0 - a.1, b.0 - b.1);
    lemma_congruent_same(more, m);
    lemma_congruent_plus(added + sums.0, sums.1, more, more, m);
    lemma_congruent_through(added + sums.0 + more, sums.1 + more, sums.2, m);
    lemma_onward(
        is.0 + is.1 - is.2,
        was.0 + was.1 - was.2,
        added + more,
        sums.0,
        sums.2,
        m,
    );
}

/// The pass over two Q4_K rows at once gives each the value of its sub-blocks, whatever
/// sums come with the activations.
pub proof fn q4k_gu_is_subs<S: Scalar>(
    v: spec_fn(S) -> int,
    m: int,
    row: Seq<u8>,
    x: Seq<i8>,
    xs: Seq<S>,
    xsum: Seq<i32>,
    cols: int,
)
    requires
        is_exact(v, m),
        0 <= cols,
        144 * (cols / 256) <= row.len(),
        256 * (cols / 256) <= x.len(),
    ensures
        congruent(
            v(q4k_gu_value(row, x, xs, xsum, cols)),
            sum(8 * (cols / 256), q4k_subs(v, row, x, xs, xsum)),
            m,
        ),
{
    let n = cols / 256;
    let p = 4 * n;
    lemma_q4k_pairs(v, m, row, x, xs, xsum, false, p, n);
    reveal(q4k_chained);
    reveal(q4k_given);
    let (e, o) = (q4k_four(row, x, xs, false, 0, p), q4k_four(row, x, xs, false, 1, p));
    lemma_joined(v, m, e, o);
    let (a, b, c, d) = (
        q4k_joined(row, x, xs, false, 0, p),
        q4k_joined(row, x, xs, false, 1, p),
        q4k_joined(row, x, xs, false, 2, p),
        q4k_joined(row, x, xs, false, 3, p),
    );
    lemma_paired(v, m, a, b, c, d);
    let held = all_of(v, e) + all_of(v, o);
    lemma_congruent_through(v(paired(a, b, c, d)), all(v, a, b, c, d), held, m);
    lemma_less(
        v,
        m,
        paired(a, b, c, d),
        q4k_low_pairs(row, xs, xsum, false, p),
        held,
        sum(2 * p, q4k_subs(v, row, x, xs, xsum)),
    );
}

/// The pass over two Q4_K rows at once gives each the value of its dequantized
/// weights, where the sums are those of the activations.
pub proof fn q4k_gu_is_dequantized_dot<S: Scalar>(
    v: spec_fn(S) -> int,
    m: int,
    row: Seq<u8>,
    x: Seq<i8>,
    xs: Seq<S>,
    xsum: Seq<i32>,
    cols: int,
)
    requires
        is_exact(v, m),
        0 <= cols,
        144 * (cols / 256) <= row.len(),
        256 * (cols / 256) <= x.len(),
        row_sums(xsum, x, cols / 256),
    ensures
        congruent(
            v(q4k_gu_value(row, x, xs, xsum, cols)),
            sum(256 * (cols / 256), q4k_column32(v, row, x, xs)),
            m,
        ),
{
    let n = cols / 256;
    q4k_gu_is_subs(v, m, row, x, xs, xsum, cols);
    lemma_q4k_subs_are_columns(v, m, row, x, xs, xsum, 8 * n, n);
    lemma_congruent_through(
        v(q4k_gu_value(row, x, xs, xsum, cols)),
        sum(8 * n, q4k_subs(v, row, x, xs, xsum)),
        sum(256 * n, q4k_column32(v, row, x, xs)),
        m,
    );
}

/// A Q4_K row in a chain of even and a chain of odd sub-blocks has the value of its
/// sub-blocks, whatever sums come with the activations.
pub proof fn q4k_split_is_subs<S: Scalar>(
    v: spec_fn(S) -> int,
    m: int,
    row: Seq<u8>,
    x: Seq<i8>,
    xs: Seq<S>,
    xsum: Seq<i32>,
    cols: int,
)
    requires
        is_exact(v, m),
        0 <= cols,
        144 * (cols / 256) <= row.len(),
        256 * (cols / 256) <= x.len(),
    ensures
        congruent(
            v(q4k_split_value(row, x, xs, xsum, cols)),
            sum(8 * (cols / 256), q4k_subs(v, row, x, xs, xsum)),
            m,
        ),
{
    let n = cols / 256;
    let p = 4 * n;
    lemma_q4k_pairs(v, m, row, x, xs, xsum, true, p, n);
    reveal(q4k_chained);
    reveal(q4k_given);
    let (e, o) = (q4k_four(row, x, xs, true, 0, p), q4k_four(row, x, xs, true, 1, p));
    lemma_joined(v, m, e, o);
    let j = (
        q4k_joined(row, x, xs, true, 0, p),
        q4k_joined(row, x, xs, true, 1, p),
        q4k_joined(row, x, xs, true, 2, p),
        q4k_joined(row, x, xs, true, 3, p),
    );
    let z = S::zero_spec().plus_spec(S::zero_spec());
    lemma_joined(v, m, j, (z, z, z, z));
    let zero = v(S::zero_spec());
    lemma_congruent_plus(zero, 0, zero, 0, m);
    lemma_congruent_through(v(z), zero + zero, 0, m);
    lemma_congruent_plus(v(z), 0, v(z), 0, m);
    lemma_congruent_plus(v(z) + v(z), 0, v(z) + v(z), 0, m);
    let (a, b, c, d) = (
        q4k_joined_four(row, x, xs, 0, p),
        q4k_joined_four(row, x, xs, 1, p),
        q4k_joined_four(row, x, xs, 2, p),
        q4k_joined_four(row, x, xs, 3, p),
    );
    let held = all_of(v, e) + all_of(v, o);
    lemma_congruent_plus(all_of(v, j), held, all(v, z, z, z, z), 0, m);
    lemma_congruent_through(all(v, a, b, c, d), all_of(v, j) + all(v, z, z, z, z), held, m);
    lemma_paired(v, m, a, b, c, d);
    lemma_congruent_through(v(paired(a, b, c, d)), all(v, a, b, c, d), held, m);
    lemma_less(
        v,
        m,
        paired(a, b, c, d),
        q4k_low_pairs(row, xs, xsum, true, p),
        held,
        sum(2 * p, q4k_subs(v, row, x, xs, xsum)),
    );
}

/// A Q4_K row in a chain of even and a chain of odd sub-blocks has the value of its
/// dequantized weights, where the sums are those of the activations.
pub proof fn q4k_split_is_dequantized_dot<S: Scalar>(
    v: spec_fn(S) -> int,
    m: int,
    row: Seq<u8>,
    x: Seq<i8>,
    xs: Seq<S>,
    xsum: Seq<i32>,
    cols: int,
)
    requires
        is_exact(v, m),
        0 <= cols,
        144 * (cols / 256) <= row.len(),
        256 * (cols / 256) <= x.len(),
        row_sums(xsum, x, cols / 256),
    ensures
        congruent(
            v(q4k_split_value(row, x, xs, xsum, cols)),
            sum(256 * (cols / 256), q4k_column32(v, row, x, xs)),
            m,
        ),
{
    let n = cols / 256;
    q4k_split_is_subs(v, m, row, x, xs, xsum, cols);
    lemma_q4k_subs_are_columns(v, m, row, x, xs, xsum, 8 * n, n);
    lemma_congruent_through(
        v(q4k_split_value(row, x, xs, xsum, cols)),
        sum(8 * n, q4k_subs(v, row, x, xs, xsum)),
        sum(256 * n, q4k_column32(v, row, x, xs)),
        m,
    );
}

/// The orders in which the engines add up a Q4_K row agree, whatever sums come with the
/// activations.
pub proof fn q4k_orders_agree<S: Scalar>(
    v: spec_fn(S) -> int,
    m: int,
    row: Seq<u8>,
    x: Seq<i8>,
    xs: Seq<S>,
    xsum: Seq<i32>,
    cols: int,
)
    requires
        is_exact(v, m),
        0 <= cols,
        144 * (cols / 256) <= row.len(),
        256 * (cols / 256) <= x.len(),
    ensures
        congruent(
            v(q4k_gu_value(row, x, xs, xsum, cols)),
            v(q4k_value(row, x, xs, xsum, cols)),
            m,
        ),
        congruent(
            v(q4k_split_value(row, x, xs, xsum, cols)),
            v(q4k_value(row, x, xs, xsum, cols)),
            m,
        ),
{
    let (one, two, three) = (
        v(q4k_value(row, x, xs, xsum, cols)),
        v(q4k_gu_value(row, x, xs, xsum, cols)),
        v(q4k_split_value(row, x, xs, xsum, cols)),
    );
    let whole = sum(8 * (cols / 256), q4k_subs(v, row, x, xs, xsum));
    q4k_blocks_are_subs(v, m, row, x, xs, xsum, cols);
    q4k_gu_is_subs(v, m, row, x, xs, xsum, cols);
    q4k_split_is_subs(v, m, row, x, xs, xsum, cols);
    lemma_congruent_flip(one, whole, m);
    lemma_congruent_through(two, whole, one, m);
    lemma_congruent_through(three, whole, one, m);
}

// ---------------------------------------------------------------- Q6_K rows

/// Column `j` of a Q6_K row whose activations carry a scale for each 32: its
/// dequantized weight, times the scale, times its activation.
pub open spec fn q6k_column32<S: Scalar>(
    v: spec_fn(S) -> int,
    row: Seq<u8>,
    x: Seq<i8>,
    xs: Seq<S>,
) -> spec_fn(int) -> int {
    |j: int| v(q6k_plain::<S>(q6k_block(row, j / 256), j % 256)) * v(xs[j / 32]) * x[j]
}

/// What a run of sixteen adds is the dot product of its dequantized weights with its
/// scaled activations.
proof fn lemma_q6k_run<S: Scalar>(
    v: spec_fn(S) -> int,
    m: int,
    b: Seq<u8>,
    x: Seq<i8>,
    k: int,
    y: S,
)
    requires
        is_exact(v, m),
        b.len() == 210,
        x.len() == 256,
        0 <= k < 16,
    ensures
        ({
            let f = q6k_run_term(b, x, k);
            &&& congruent(
                sum(16, f) * v(q6k_factor(b, k, y)),
                sum(16, |i: int| v(q6k_plain::<S>(b, 16 * k + i)) * v(y) * x[16 * k + i]),
                m,
            )
            &&& quarter(f, 0) + quarter(f, 1) + quarter(f, 2) + quarter(f, 3) == sum(16, f)
            &&& forall|l: int| 0 <= l < 4 ==> -0x10_0000 <= #[trigger] quarter(f, l) <= 0x10_0000
        }),
{
    let f = q6k_run_term(b, x, k);
    assert forall|i: int| 0 <= i < 16 implies -4096 <= #[trigger] f(i) <= 4096 by {
        lemma_code_range(b, 16 * k + i);
        lemma_product_bounds(q6k_code(b, 16 * k + i), x[16 * k + i] as int, 32, 128);
    }
    lemma_lane_small(f, 4, 4096);
    quarters_add_up(f);
    let (d, sc) = (q6k_d::<S>(b), q6k_scale(b, k));
    let (vd, vy) = (v(d), v(y));
    let gain = vy * vd * sc;
    let h = |i: int| v(q6k_plain::<S>(b, 16 * k + i)) * v(y) * x[16 * k + i];
    let g = |i: int| f(i) * gain;
    lemma_factored(16, gain, f, g);
    lemma_code_range(b, 16 * k);
    assert forall|i: int| 0 <= i < 16 implies congruent(#[trigger] g(i), h(i), m) by {
        let l = 16 * k + i;
        lemma_q6k_plain(v, m, b, l);
        lemma_code_range(b, l);
        let (w, p, xl) = (q6k_weight(b, l), v(q6k_plain::<S>(b, l)), x[l] as int);
        assert(l / 16 == k);
        assert(w.sc == sc && w.code == q6k_code(b, l));
        let (code, part) = (w.code as int, vd * sc);
        let q = vd * sc * code;
        lemma_congruent_flip(p, q, m);
        lemma_congruent_same(vy * xl, m);
        lemma_congruent_times(q, p, vy * xl, vy * xl, m);
        assert(gain == vy * part) by (nonlinear_arith)
            requires
                gain == vy * vd * sc,
                part == vd * sc,
        ;
        assert(part * code * (vy * xl) == code * xl * (vy * part)) by (nonlinear_arith);
        assert(p * (vy * xl) == p * vy * xl) by (nonlinear_arith);
    }
    lemma_congruent_sum(16, g, h, m);
    let factor = q6k_factor(b, k, y);
    lemma_two_and(v, m, y, d, sc as i64);
    lemma_congruent_same(sum(16, f), m);
    lemma_congruent_times(sum(16, f), sum(16, f), v(factor), gain, m);
    lemma_congruent_through(sum(16, f) * v(factor), sum(16, g), sum(16, h), m);
}

/// What run `r` of a row adds.
#[verifier::opaque]
spec fn q6k_gain<S: Scalar>(
    v: spec_fn(S) -> int,
    row: Seq<u8>,
    x: Seq<i8>,
    xs: Seq<S>,
    r: int,
) -> int {
    let b = q6k_block(row, r / 16);
    sum(16, q6k_run_term(b, x_block(x, r / 16), r % 16)) * v(q6k_factor(b, r % 16, xs[r / 2]))
}

/// The columns of the first `r` runs.
#[verifier::opaque]
spec fn q6k_columns<S: Scalar>(
    v: spec_fn(S) -> int,
    row: Seq<u8>,
    x: Seq<i8>,
    xs: Seq<S>,
    r: int,
) -> int {
    sum(16 * r, q6k_column32(v, row, x, xs))
}

/// Run `r` of a row adds its columns, and one step to the four lanes of its chain.
proof fn lemma_q6k_grown<S: Scalar>(
    v: spec_fn(S) -> int,
    m: int,
    row: Seq<u8>,
    x: Seq<i8>,
    xs: Seq<S>,
    r: int,
    n: int,
    a: (S, S, S, S),
)
    requires
        is_exact(v, m),
        0 <= r < 16 * n,
        210 * n <= row.len(),
        256 * n <= x.len(),
    ensures
        ({
            let (b, k) = (q6k_block(row, r / 16), r % 16);
            let f = q6k_run_term(b, x_block(x, r / 16), k);
            let factor = q6k_factor(b, k, xs[r / 2]);
            let gain = q6k_gain(v, row, x, xs, r);
            &&& congruent(
                gain + q6k_columns(v, row, x, xs, r),
                q6k_columns(v, row, x, xs, r + 1),
                m,
            )
            &&& congruent(
                all(
                    v,
                    scaled(a.0, quarter(f, 0), factor),
                    scaled(a.1, quarter(f, 1), factor),
                    scaled(a.2, quarter(f, 2), factor),
                    scaled(a.3, quarter(f, 3), factor),
                ),
                all_of(v, a) + gain,
                m,
            )
        }),
{
    reveal(q6k_gain);
    reveal(q6k_columns);
    let (s, k, y) = (r / 16, r % 16, xs[r / 2]);
    let (b, xb) = (q6k_block(row, s), x_block(x, s));
    let column = q6k_column32(v, row, x, xs);
    lemma_q6k_run(v, m, b, xb, k, y);
    let f = q6k_run_term(b, xb, k);
    let tail = |i: int| v(q6k_plain::<S>(b, 16 * k + i)) * v(y) * xb[16 * k + i];
    assert forall|i: int| 0 <= i < 16 implies #[trigger] tail(i) == column(16 * r + i) by {
        let l = 16 * r + i;
        assert(l / 256 == s && l % 256 == 16 * k + i && l / 32 == r / 2);
        assert(xb[16 * k + i] == x[l]);
    }
    lemma_sum_split(16 * r, 16, column, tail);
    let gain = sum(16, f) * v(q6k_factor(b, k, y));
    lemma_congruent_same(sum(16 * r, column), m);
    lemma_congruent_plus(gain, sum(16, tail), sum(16 * r, column), sum(16 * r, column), m);
    lemma_grown(
        v,
        m,
        a.0,
        a.1,
        a.2,
        a.3,
        (quarter(f, 0), quarter(f, 1), quarter(f, 2), quarter(f, 3)),
        q6k_factor(b, k, y),
    );
}

/// The lanes of the first `r` runs.
spec fn q6k_lanes<S: Scalar>(row: Seq<u8>, x: Seq<i8>, xs: Seq<S>, r: int) -> (S, S, S, S) {
    (
        q6k_lane(row, x, xs, 0, r),
        q6k_lane(row, x, xs, 1, r),
        q6k_lane(row, x, xs, 2, r),
        q6k_lane(row, x, xs, 3, r),
    )
}

proof fn lemma_q6k_lanes<S: Scalar>(
    v: spec_fn(S) -> int,
    m: int,
    row: Seq<u8>,
    x: Seq<i8>,
    xs: Seq<S>,
    r: int,
    n: int,
)
    requires
        is_exact(v, m),
        0 <= r <= 16 * n,
        210 * n <= row.len(),
        256 * n <= x.len(),
    ensures
        congruent(all_of(v, q6k_lanes(row, x, xs, r)), q6k_columns(v, row, x, xs, r), m),
    decreases r,
{
    reveal_with_fuel(q6k_lane, 1);
    if r == 0 {
        reveal(q6k_columns);
        lemma_four_zeros(v, m);
    } else {
        let i = r - 1;
        lemma_q6k_lanes(v, m, row, x, xs, i, n);
        let a = q6k_lanes(row, x, xs, i);
        lemma_q6k_grown(v, m, row, x, xs, i, n, a);
        lemma_onward(
            all_of(v, q6k_lanes(row, x, xs, r)),
            all_of(v, a),
            q6k_gain(v, row, x, xs, i),
            q6k_columns(v, row, x, xs, i),
            q6k_columns(v, row, x, xs, r),
            m,
        );
    }
}

/// A Q6_K row of `n` super-blocks has the value of its dequantized weights.
pub proof fn q6k_blocks_are_dequantized_dot<S: Scalar>(
    v: spec_fn(S) -> int,
    m: int,
    row: Seq<u8>,
    x: Seq<i8>,
    xs: Seq<S>,
    n: int,
)
    requires
        is_exact(v, m),
        0 <= n,
        210 * n <= row.len(),
        256 * n <= x.len(),
    ensures
        congruent(
            v(q6k_value(row, x, xs, 16 * n)),
            sum(256 * n, q6k_column32(v, row, x, xs)),
            m,
        ),
{
    let r = 16 * n;
    lemma_q6k_lanes(v, m, row, x, xs, r, n);
    reveal(q6k_columns);
    let a = q6k_lanes(row, x, xs, r);
    lemma_paired(v, m, a.0, a.1, a.2, a.3);
    lemma_congruent_through(
        v(q6k_value(row, x, xs, r)),
        all_of(v, a),
        sum(256 * n, q6k_column32(v, row, x, xs)),
        m,
    );
}

/// The lanes of chain `c`.
spec fn q6k_four<S: Scalar>(row: Seq<u8>, x: Seq<i8>, xs: Seq<S>, c: int, p: int) -> (S, S, S, S) {
    (
        q6k_chain(row, x, xs, 0, c, p),
        q6k_chain(row, x, xs, 1, c, p),
        q6k_chain(row, x, xs, 2, c, p),
        q6k_chain(row, x, xs, 3, c, p),
    )
}

/// What the lanes of chain `c` hold together.
#[verifier::opaque]
spec fn q6k_chained<S: Scalar>(
    v: spec_fn(S) -> int,
    row: Seq<u8>,
    x: Seq<i8>,
    xs: Seq<S>,
    c: int,
    p: int,
) -> int {
    all_of(v, q6k_four(row, x, xs, c, p))
}

/// A step of a chain.
proof fn lemma_q6k_link<S: Scalar>(
    v: spec_fn(S) -> int,
    m: int,
    row: Seq<u8>,
    x: Seq<i8>,
    xs: Seq<S>,
    c: int,
    p: int,
    n: int,
)
    requires
        is_exact(v, m),
        0 <= c < 4,
        0 <= p < 4 * n,
        210 * n <= row.len(),
        256 * n <= x.len(),
    ensures
        ({
            let gain = q6k_gain(v, row, x, xs, 4 * p + c);
            &&& congruent(
                q6k_chained(v, row, x, xs, c, p + 1),
                q6k_chained(v, row, x, xs, c, p) + gain,
                m,
            )
            &&& congruent(
                gain + q6k_columns(v, row, x, xs, 4 * p + c),
                q6k_columns(v, row, x, xs, 4 * p + c + 1),
                m,
            )
        }),
{
    reveal(q6k_chained);
    reveal_with_fuel(q6k_chain, 1);
    let r = 4 * p + c;
    assert(p / 4 == r / 16 && 4 * (p % 4) + c == r % 16 && 8 * (r / 16) + (r % 16) / 2 == r / 2);
    lemma_q6k_grown(v, m, row, x, xs, r, n, q6k_four(row, x, xs, c, p));
}

/// What all chains hold together.
spec fn q6k_all_chains<S: Scalar>(
    v: spec_fn(S) -> int,
    row: Seq<u8>,
    x: Seq<i8>,
    xs: Seq<S>,
    p: int,
) -> int {
    q6k_chained(v, row, x, xs, 0, p) + q6k_chained(v, row, x, xs, 1, p) + q6k_chained(
        v,
        row,
        x,
        xs,
        2,
        p,
    ) + q6k_chained(v, row, x, xs, 3, p)
}

/// Four runs add their columns: `was` and `is` hold what the chains hold, `gains` what
/// the runs add, and `sums` the sums of the columns.
proof fn lemma_four_steps(
    was: (int, int, int, int),
    is: (int, int, int, int),
    gains: (int, int, int, int),
    sums: (int, int, int, int, int),
    m: int,
)
    requires
        congruent(was.0 + was.1 + was.2 + was.3, sums.0, m),
        congruent(is.0, was.0 + gains.0, m),
        congruent(is.1, was.1 + gains.1, m),
        congruent(is.2, was.2 + gains.2, m),
        congruent(is.3, was.3 + gains.3, m),
        congruent(gains.0 + sums.0, sums.1, m),
        congruent(gains.1 + sums.1, sums.2, m),
        congruent(gains.2 + sums.2, sums.3, m),
        congruent(gains.3 + sums.3, sums.4, m),
    ensures
        congruent(is.0 + is.1 + is.2 + is.3, sums.4, m),
{
    lemma_congruent_plus(is.0, was.0 + gains.0, is.1, was.1 + gains.1, m);
    lemma_congruent_plus(is.2, was.2 + gains.2, is.3, was.3 + gains.3, m);
    lemma_congruent_plus(
        is.0 + is.1,
        was.0 + gains.0 + (was.1 + gains.1),
        is.2 + is.3,
        was.2 + gains.2 + (was.3 + gains.3),
        m,
    );
    lemma_congruent_same(gains.1, m);
    lemma_congruent_plus(gains.0 + sums.0, sums.1, gains.1, gains.1, m);
    lemma_congruent_through(gains.0 + sums.0 + gains.1, sums.1 + gains.1, sums.2, m);
    lemma_congruent_same(gains.2, m);
    lemma_congruent_plus(gains.0 + sums.0 + gains.1, sums.2, gains.2, gains.2, m);
    lemma_congruent_through(gains.0 + sums.0 + gains.1 + gains.2, sums.2 + gains.2, sums.3, m);
    lemma_congruent_same(gains.3, m);
    lemma_congruent_plus(gains.0 + sums.0 + gains.1 + gains.2, sums.3, gains.3, gains.3, m);
    lemma_congruent_through(
        gains.0 + sums.0 + gains.1 + gains.2 + gains.3,
        sums.3 + gains.3,
        sums.4,
        m,
    );
    lemma_onward(
        is.0 + is.1 + (is.2 + is.3),
        was.0 + was.1 + was.2 + was.3,
        gains.0 + gains.1 + gains.2 + gains.3,
        sums.0,
        sums.4,
        m,
    );
}

proof fn lemma_q6k_fours<S: Scalar>(
    v: spec_fn(S) -> int,
    m: int,
    row: Seq<u8>,
    x: Seq<i8>,
    xs: Seq<S>,
    p: int,
    n: int,
)
    requires
        is_exact(v, m),
        0 <= p <= 4 * n,
        210 * n <= row.len(),
        256 * n <= x.len(),
    ensures
        congruent(q6k_all_chains(v, row, x, xs, p), q6k_columns(v, row, x, xs, 4 * p), m),
    decreases p,
{
    if p == 0 {
        reveal(q6k_chained);
        reveal(q6k_columns);
        reveal_with_fuel(q6k_chain, 1);
        lemma_four_zeros(v, m);
        let z = all(v, S::zero_spec(), S::zero_spec(), S::zero_spec(), S::zero_spec());
        lemma_congruent_plus(z, 0, z, 0, m);
        lemma_congruent_plus(z + z, 0, z + z, 0, m);
    } else {
        let i = p - 1;
        let r = 4 * i;
        lemma_q6k_fours(v, m, row, x, xs, i, n);
        lemma_q6k_link(v, m, row, x, xs, 0, i, n);
        lemma_q6k_link(v, m, row, x, xs, 1, i, n);
        lemma_q6k_link(v, m, row, x, xs, 2, i, n);
        lemma_q6k_link(v, m, row, x, xs, 3, i, n);
        lemma_four_steps(
            (
                q6k_chained(v, row, x, xs, 0, i),
                q6k_chained(v, row, x, xs, 1, i),
                q6k_chained(v, row, x, xs, 2, i),
                q6k_chained(v, row, x, xs, 3, i),
            ),
            (
                q6k_chained(v, row, x, xs, 0, p),
                q6k_chained(v, row, x, xs, 1, p),
                q6k_chained(v, row, x, xs, 2, p),
                q6k_chained(v, row, x, xs, 3, p),
            ),
            (
                q6k_gain(v, row, x, xs, r),
                q6k_gain(v, row, x, xs, r + 1),
                q6k_gain(v, row, x, xs, r + 2),
                q6k_gain(v, row, x, xs, r + 3),
            ),
            (
                q6k_columns(v, row, x, xs, r),
                q6k_columns(v, row, x, xs, r + 1),
                q6k_columns(v, row, x, xs, r + 2),
                q6k_columns(v, row, x, xs, r + 3),
                q6k_columns(v, row, x, xs, 4 * p),
            ),
            m,
        );
    }
}

/// A Q6_K row with every fourth run in a chain of its own has the value of its
/// dequantized weights.
pub proof fn q6k_split_is_dequantized_dot<S: Scalar>(
    v: spec_fn(S) -> int,
    m: int,
    row: Seq<u8>,
    x: Seq<i8>,
    xs: Seq<S>,
    n: int,
)
    requires
        is_exact(v, m),
        0 <= n,
        210 * n <= row.len(),
        256 * n <= x.len(),
    ensures
        congruent(
            v(q6k_split_value(row, x, xs, 4 * n)),
            sum(256 * n, q6k_column32(v, row, x, xs)),
            m,
        ),
{
    let p = 4 * n;
    lemma_q6k_fours(v, m, row, x, xs, p, n);
    let (e, f, g, h) = (
        q6k_four(row, x, xs, 0, p),
        q6k_four(row, x, xs, 1, p),
        q6k_four(row, x, xs, 2, p),
        q6k_four(row, x, xs, 3, p),
    );
    lemma_paired(v, m, e.0, f.0, g.0, h.0);
    lemma_paired(v, m, e.1, f.1, g.1, h.1);
    lemma_paired(v, m, e.2, f.2, g.2, h.2);
    lemma_paired(v, m, e.3, f.3, g.3, h.3);
    let (a, b, c, d) = (
        q6k_joined(row, x, xs, 0, p),
        q6k_joined(row, x, xs, 1, p),
        q6k_joined(row, x, xs, 2, p),
        q6k_joined(row, x, xs, 3, p),
    );
    let (pa, pb, pc, pd) = (
        all(v, e.0, f.0, g.0, h.0),
        all(v, e.1, f.1, g.1, h.1),
        all(v, e.2, f.2, g.2, h.2),
        all(v, e.3, f.3, g.3, h.3),
    );
    lemma_congruent_plus(v(a), pa, v(b), pb, m);
    lemma_congruent_plus(v(c), pc, v(d), pd, m);
    lemma_congruent_plus(v(a) + v(b), pa + pb, v(c) + v(d), pc + pd, m);
    lemma_paired(v, m, a, b, c, d);
    let chains = q6k_all_chains(v, row, x, xs, p);
    assert(pa + pb + (pc + pd) == chains) by {
        reveal(q6k_chained);
    }
    lemma_congruent_through(v(paired(a, b, c, d)), all(v, a, b, c, d), chains, m);
    lemma_congruent_through(
        v(paired(a, b, c, d)),
        chains,
        q6k_columns(v, row, x, xs, 4 * p),
        m,
    );
    reveal(q6k_columns);
}

} // verus!
