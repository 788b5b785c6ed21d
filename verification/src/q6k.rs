//! Q6_K super-blocks: 256 weights in 210 bytes.
//!
//! A super-block holds 128 bytes of low and 64 bytes of high code bits, sixteen
//! signed scales and a half `d`. Weight `l` is `d * scale * code`, with the scale
//! of its run of sixteen and a code within `-32 .. 32`.
use crate::arith::{lemma_product_bounds, lemma_sum_groups, lemma_sum_linear, sum};
use crate::bits::{as_signed, hi_nibble, lo_nibble, signed};
use crate::half::{half_at, half_bits, read_half};
use crate::lanes::{paired, quarter, scaled, Lanes};
use crate::scalar::Scalar;
use crate::q4k::x_block;
use vstd::arithmetic::mul::lemma_mul_is_associative;
use vstd::prelude::*;
use vstd::slice::slice_subrange;

verus! {

/// Four to the power `g`, for the two-bit field `g` of a byte.
pub open spec fn field_unit(g: int) -> int {
    if g == 0 {
        1
    } else if g == 1 {
        4
    } else if g == 2 {
        16
    } else {
        64
    }
}

/// The signed 6-bit code of weight `l`: four low bits out of the first 128
/// bytes and two high bits out of the next 64. Each half of 128 weights is four
/// runs of 32; the runs share the high bytes, two bits each, and the first and
/// third, and the second and fourth run share the low bytes.
pub open spec fn q6k_code(b: Seq<u8>, l: int) -> int {
    let h = l / 128;
    let g = (l % 128) / 32;
    let i = l % 32;
    let low = b[64 * h + 32 * (g % 2) + i] as int;
    let high = b[128 + 32 * h + i] as int;
    (if g < 2 {
        low % 16
    } else {
        low / 16
    }) + 16 * ((high / field_unit(g)) % 4) - 32
}

/// The signed scale of run `k` of sixteen weights.
pub open spec fn q6k_scale(b: Seq<u8>, k: int) -> int {
    signed(b[192 + k] as int)
}

/// Code times activation, for weight `i` of run `k`.
pub open spec fn q6k_run_term(b: Seq<u8>, x: Seq<i8>, k: int) -> spec_fn(int) -> int {
    |i: int| q6k_code(b, 16 * k + i) * x[16 * k + i]
}

/// The dot product of run `k`'s codes with the activations.
pub open spec fn q6k_run_dot(b: Seq<u8>, x: Seq<i8>, k: int) -> int {
    sum(16, q6k_run_term(b, x, k))
}

/// Scale times code times activation, for weight `l`.
pub open spec fn q6k_term(b: Seq<u8>, x: Seq<i8>) -> spec_fn(int) -> int {
    |l: int| q6k_scale(b, l / 16) * q6k_code(b, l) * x[l]
}

/// The sum over all 256 weights of scale times code times activation.
pub open spec fn q6k_acc(b: Seq<u8>, x: Seq<i8>) -> int {
    sum(256, q6k_term(b, x))
}

/// The integer parts of one Q6_K super-block times 256 activations: the factor
/// `d` as the bits of a single, each run's scale and dot product.
pub struct Q6Parts {
    pub d: u32,
    pub sc: Vec<i8>,
    pub sums: Vec<i32>,
}

impl Q6Parts {
    /// These are the parts of super-block `b` times the activations `x`.
    pub open spec fn of(&self, b: Seq<u8>, x: Seq<i8>) -> bool {
        &&& self.d == half_bits(half_at(b, 208))
        &&& self.sc@.len() == 16
        &&& self.sums@.len() == 16
        &&& forall|k: int| 0 <= k < 16 ==> #[trigger] self.sc@[k] == q6k_scale(b, k)
        &&& forall|k: int| 0 <= k < 16 ==> #[trigger] self.sums@[k] == q6k_run_dot(b, x, k)
    }

    /// A dot product of sixteen codes is small.
    pub open spec fn small(&self) -> bool {
        forall|k: int| 0 <= k < 16 ==> -65536 <= #[trigger] self.sums@[k] <= 65536
    }
}

/// One Q6_K super-block times 256 activations with one scale for all of them:
/// the row's value grows by `ys * d * acc`.
pub struct Q6Term {
    pub d: u32,
    pub acc: i32,
}

impl Q6Term {
    /// This is the term of super-block `b` times the activations `x`.
    pub open spec fn of(&self, b: Seq<u8>, x: Seq<i8>) -> bool {
        &&& self.d == half_bits(half_at(b, 208))
        &&& self.acc == q6k_acc(b, x)
    }
}

proof fn lemma_two_bits(b: u8)
    by (bit_vector)
    ensures
        b & 3 == b % 4,
        (b >> 2) & 3 == (b / 4) % 4,
        (b >> 4) & 3 == (b / 16) % 4,
        (b >> 6) & 3 == (b / 64) % 4,
{
}

/// The two-bit field `g` of a byte.
fn two_bits(b: u8, g: usize) -> (r: u8)
    requires
        g < 4,
    ensures
        r == (b as int / field_unit(g as int)) % 4,
{
    proof {
        lemma_two_bits(b);
    }
    if g == 0 {
        b & 3
    } else if g == 1 {
        (b >> 2) & 3
    } else if g == 2 {
        (b >> 4) & 3
    } else {
        (b >> 6) & 3
    }
}

/// The code of weight `l`.
fn q6k_code_at(b: &[u8], l: usize) -> (r: i8)
    requires
        b.len() >= 210,
        l < 256,
    ensures
        r == q6k_code(b@, l as int),
        -32 <= r < 32,
{
    let (h, g, i): (usize, usize, usize) = (l / 128, (l % 128) / 32, l % 32);
    let low: u8 = b[64 * h + 32 * (g % 2) + i];
    let high: u8 = b[128 + 32 * h + i];
    let lo: u8 = if g < 2 {
        lo_nibble(low)
    } else {
        hi_nibble(low)
    };
    let hi: u8 = two_bits(high, g);
    (lo + 16 * hi) as i8 - 32
}

/// The codes of all 256 weights, in order.
pub fn q6k_unpack(b: &[u8]) -> (t: Vec<i8>)
    requires
        b.len() >= 210,
    ensures
        t.len() == 256,
        forall|l: int| 0 <= l < 256 ==> #[trigger] t@[l] == q6k_code(b@, l),
        forall|l: int| 0 <= l < 256 ==> -32 <= #[trigger] t@[l] < 32,
{
    let mut t: Vec<i8> = Vec::new();
    for l in 0..256usize
        invariant
            b.len() >= 210,
            t@.len() == l,
            forall|k: int| 0 <= k < l ==> #[trigger] t@[k] == q6k_code(b@, k),
            forall|k: int| 0 <= k < l ==> -32 <= #[trigger] t@[k] < 32,
    {
        t.push(q6k_code_at(b, l));
    }
    t
}

/// The parts of one super-block.
pub fn q6k_parts(b: &[u8], x: &[i8]) -> (r: Q6Parts)
    requires
        b.len() == 210,
        x.len() == 256,
    ensures
        r.of(b@, x@),
        r.small(),
{
    let t = q6k_unpack(b);
    let (mut sc, mut sums): (Vec<i8>, Vec<i32>) = (Vec::new(), Vec::new());
    for k in 0..16usize
        invariant
            b.len() == 210,
            x.len() == 256,
            t.len() == 256,
            forall|l: int| 0 <= l < 256 ==> #[trigger] t@[l] == q6k_code(b@, l),
            forall|l: int| 0 <= l < 256 ==> -32 <= #[trigger] t@[l] < 32,
            sc@.len() == k && sums@.len() == k,
            forall|i: int| 0 <= i < k ==> #[trigger] sc@[i] == q6k_scale(b@, i),
            forall|i: int|
                0 <= i < k ==> #[trigger] sums@[i] == q6k_run_dot(b@, x@, i) && -65536 <= sums@[i]
                    <= 65536,
    {
        let mut acc: i32 = 0;
        for i in 0..16usize
            invariant
                x.len() == 256,
                t.len() == 256,
                k < 16,
                forall|l: int| 0 <= l < 256 ==> #[trigger] t@[l] == q6k_code(b@, l),
                forall|l: int| 0 <= l < 256 ==> -32 <= #[trigger] t@[l] < 32,
                acc == sum(i as int, q6k_run_term(b@, x@, k as int)),
                -4096 * i <= acc <= 4096 * i,
        {
            proof {
                lemma_product_bounds(t@[16 * k + i] as int, x@[16 * k + i] as int, 32, 128);
            }
            acc = acc + (t[16 * k + i] as i32) * (x[16 * k + i] as i32);
        }
        sc.push(as_signed(b[192 + k]));
        sums.push(acc);
    }
    Q6Parts { d: read_half(b, 208), sc, sums }
}

/// Scale times dot product, for run `k`.
spec fn q6k_group(b: Seq<u8>, x: Seq<i8>) -> spec_fn(int) -> int {
    |k: int| q6k_scale(b, k) * q6k_run_dot(b, x, k)
}

proof fn lemma_q6k_acc(b: Seq<u8>, x: Seq<i8>)
    ensures
        q6k_acc(b, x) == sum(16, q6k_group(b, x)),
{
    let f = q6k_term(b, x);
    let group = q6k_group(b, x);
    let term = |k: int| (|i: int| q6k_scale(b, k) * q6k_run_term(b, x, k)(i));
    assert forall|k: int| 0 <= k < 16 implies #[trigger] group(k) == sum(16, term(k)) by {
        let zero = |i: int| 0int;
        let (g, t) = (q6k_run_term(b, x, k), term(k));
        assert forall|i: int| 0 <= i < 16 implies #[trigger] t(i) == q6k_scale(b, k) * g(i) + 0
            * zero(i) by {}
        lemma_sum_linear(16, q6k_scale(b, k), g, 0, zero, t);
        assert(0 * sum(16, zero) == 0) by (nonlinear_arith);
    }
    assert forall|k: int, i: int| 0 <= k < 16 && 0 <= i < 16 implies #[trigger] term(k)(i) == f(
        k * 16 + i,
    ) by {
        let l = k * 16 + i;
        assert(l / 16 == k);
        lemma_mul_is_associative(q6k_scale(b, k), q6k_code(b, l), x[l] as int);
    }
    lemma_sum_groups(16, 16, f, group, term);
}

/// Gathers the parts of a super-block under one activation scale.
fn q6k_gather(p: &Q6Parts, Ghost(b): Ghost<Seq<u8>>, Ghost(x): Ghost<Seq<i8>>) -> (r: Q6Term)
    requires
        p.of(b, x),
        p.small(),
    ensures
        r.of(b, x),
{
    let mut acc: i32 = 0;
    for k in 0..16usize
        invariant
            p.of(b, x),
            p.small(),
            acc == sum(k as int, q6k_group(b, x)),
            -8388608 * k <= acc <= 8388608 * k,
    {
        let (s, v): (i8, i32) = (p.sc[k], p.sums[k]);
        proof {
            lemma_product_bounds(s as int, v as int, 128, 65536);
        }
        acc = acc + (s as i32) * v;
    }
    proof {
        lemma_q6k_acc(b, x);
    }
    Q6Term { d: p.d, acc }
}

/// Super-block `s` of a row of Q6_K super-blocks.
pub open spec fn q6k_block(row: Seq<u8>, s: int) -> Seq<u8> {
    row.subrange(210 * s, 210 * s + 210)
}

/// The factor `d` of a super-block.
pub open spec fn q6k_d<S: Scalar>(b: Seq<u8>) -> S {
    S::of_bits_spec(half_bits(half_at(b, 208)))
}

/// Lane `l` after the first `n` runs of sixteen of a Q6_K row: each run adds its
/// quarter in one step, times the scale of the activations, `d` and its own scale.
#[verifier::opaque]
pub open spec fn q6k_lane<S: Scalar>(row: Seq<u8>, x: Seq<i8>, xs: Seq<S>, l: int, n: int) -> S
    decreases n,
{
    if n <= 0 {
        S::zero_spec()
    } else {
        let (s, k) = ((n - 1) / 16, (n - 1) % 16);
        let b = q6k_block(row, s);
        scaled(
            q6k_lane(row, x, xs, l, n - 1),
            quarter(q6k_run_term(b, x_block(x, s), k), l),
            xs[(n - 1) / 2].times_spec(q6k_d(b)).times_spec(
                S::of_int_spec(q6k_scale(b, k) as i64),
            ),
        )
    }
}

/// The first `n` runs of sixteen of a Q6_K row times activations that carry one
/// scale per 32: the lanes added in pairs.
pub open spec fn q6k_value<S: Scalar>(row: Seq<u8>, x: Seq<i8>, xs: Seq<S>, n: int) -> S {
    paired(
        q6k_lane(row, x, xs, 0, n),
        q6k_lane(row, x, xs, 1, n),
        q6k_lane(row, x, xs, 2, n),
        q6k_lane(row, x, xs, 3, n),
    )
}

/// All lanes start from zero.
proof fn lemma_q6k_start<S: Scalar>(row: Seq<u8>, x: Seq<i8>, xs: Seq<S>)
    ensures
        forall|l: int| #[trigger] q6k_lane(row, x, xs, l, 0) == S::zero_spec(),
{
    reveal_with_fuel(q6k_lane, 1);
}

/// Run `k` of super-block `sb` adds one step to a lane.
proof fn lemma_q6k_lane<S: Scalar>(row: Seq<u8>, x: Seq<i8>, xs: Seq<S>, sb: int, k: int, l: int)
    requires
        0 <= sb,
        0 <= k < 16,
    ensures
        ({
            let b = q6k_block(row, sb);
            q6k_lane(row, x, xs, l, 16 * sb + k + 1) == scaled(
                q6k_lane(row, x, xs, l, 16 * sb + k),
                quarter(q6k_run_term(b, x_block(x, sb), k), l),
                xs[8 * sb + k / 2].times_spec(q6k_d(b)).times_spec(
                    S::of_int_spec(q6k_scale(b, k) as i64),
                ),
            )
        }),
{
    reveal_with_fuel(q6k_lane, 1);
    let n = 16 * sb + k + 1;
    assert((n - 1) / 16 == sb && (n - 1) % 16 == k && (n - 1) / 2 == 8 * sb + k / 2);
}

/// Code times activation, for weight `i` of run `k`; `t` holds the codes.
fn q6k_product(t: &[i8], x: &[i8], k: usize, i: usize, Ghost(b): Ghost<Seq<u8>>) -> (r: i32)
    requires
        t.len() == 256,
        x.len() == 256,
        k < 16,
        i < 16,
        forall|l: int| 0 <= l < 256 ==> #[trigger] t@[l] == q6k_code(b, l),
        forall|l: int| 0 <= l < 256 ==> -32 <= #[trigger] t@[l] < 32,
    ensures
        r == q6k_run_term(b, x@, k as int)(i as int),
        -4096 <= r <= 4096,
{
    let (c, xv): (i8, i8) = (t[16 * k + i], x[16 * k + i]);
    proof {
        lemma_product_bounds(c as int, xv as int, 32, 128);
    }
    (c as i32) * (xv as i32)
}

/// Quarter `l` of run `k`; `t` holds the codes.
fn q6k_quarter(t: &[i8], x: &[i8], k: usize, l: usize, Ghost(b): Ghost<Seq<u8>>) -> (r: i32)
    requires
        t.len() == 256,
        x.len() == 256,
        k < 16,
        l < 4,
        forall|i: int| 0 <= i < 256 ==> #[trigger] t@[i] == q6k_code(b, i),
        forall|i: int| 0 <= i < 256 ==> -32 <= #[trigger] t@[i] < 32,
    ensures
        r == quarter(q6k_run_term(b, x@, k as int), l as int),
{
    proof {
        reveal(quarter);
    }
    q6k_product(t, x, k, 4 * l, Ghost(b)) + q6k_product(t, x, k, 4 * l + 1, Ghost(b)) + q6k_product(
        t,
        x,
        k,
        4 * l + 2,
        Ghost(b),
    ) + q6k_product(t, x, k, 4 * l + 3, Ghost(b))
}

/// A Q6_K row times activations that carry one scale per 32. Columns beyond the
/// last whole super-block are left out.
pub fn q6k_dot<S: Scalar>(row: &[u8], xq: &[i8], xs: &[S], cols: usize) -> (r: S)
    requires
        row.len() >= cols / 256 * 210,
        xq.len() >= cols / 256 * 256,
        xs.len() >= cols / 256 * 8,
    ensures
        r == q6k_value(row@, xq@, xs@, cols as int / 256 * 16),
{
    let mut sums: Lanes<S> = Lanes::zero();
    proof {
        lemma_q6k_start(row@, xq@, xs@);
    }
    for sb in 0..cols / 256
        invariant
            row.len() >= cols / 256 * 210,
            xq.len() >= cols / 256 * 256,
            xs.len() >= cols / 256 * 8,
            sums.a == q6k_lane(row@, xq@, xs@, 0, 16 * sb),
            sums.b == q6k_lane(row@, xq@, xs@, 1, 16 * sb),
            sums.c == q6k_lane(row@, xq@, xs@, 2, 16 * sb),
            sums.d == q6k_lane(row@, xq@, xs@, 3, 16 * sb),
    {
        let b = slice_subrange(row, sb * 210, sb * 210 + 210);
        let x = slice_subrange(xq, sb * 256, sb * 256 + 256);
        let d: S = S::of_bits(read_half(b, 208));
        let t = q6k_unpack(b);
        for k in 0..16usize
            invariant
                sb < cols / 256,
                xs.len() >= cols / 256 * 8,
                b@ == q6k_block(row@, sb as int),
                x@ == x_block(xq@, sb as int),
                b.len() == 210,
                x.len() == 256,
                t.len() == 256,
                forall|l: int| 0 <= l < 256 ==> #[trigger] t@[l] == q6k_code(b@, l),
                forall|l: int| 0 <= l < 256 ==> -32 <= #[trigger] t@[l] < 32,
                d == q6k_d::<S>(b@),
                sums.a == q6k_lane(row@, xq@, xs@, 0, 16 * sb + k),
                sums.b == q6k_lane(row@, xq@, xs@, 1, 16 * sb + k),
                sums.c == q6k_lane(row@, xq@, xs@, 2, 16 * sb + k),
                sums.d == q6k_lane(row@, xq@, xs@, 3, 16 * sb + k),
        {
            proof {
                lemma_q6k_lane(row@, xq@, xs@, sb as int, k as int, 0);
                lemma_q6k_lane(row@, xq@, xs@, sb as int, k as int, 1);
                lemma_q6k_lane(row@, xq@, xs@, sb as int, k as int, 2);
                lemma_q6k_lane(row@, xq@, xs@, sb as int, k as int, 3);
            }
            let sc: i8 = as_signed(b[192 + k]);
            let c = t.as_slice();
            let dots: (i32, i32, i32, i32) = (
                q6k_quarter(c, x, k, 0, Ghost(b@)),
                q6k_quarter(c, x, k, 1, Ghost(b@)),
                q6k_quarter(c, x, k, 2, Ghost(b@)),
                q6k_quarter(c, x, k, 3, Ghost(b@)),
            );
            sums = sums.grow(dots, xs[8 * sb + k / 2].times(d).times(S::of_int(sc as i64)));
        }
    }
    sums.total()
}

/// The factor of run `k` of a super-block.
pub open spec fn q6k_factor<S: Scalar>(b: Seq<u8>, k: int, xs: S) -> S {
    xs.times_spec(q6k_d(b)).times_spec(S::of_int_spec(q6k_scale(b, k) as i64))
}

/// Lane `l` of every fourth run of sixteen from run `c` on, after `n` of them.
#[verifier::opaque]
pub open spec fn q6k_chain<S: Scalar>(
    row: Seq<u8>,
    x: Seq<i8>,
    xs: Seq<S>,
    l: int,
    c: int,
    n: int,
) -> S
    decreases n,
{
    if n <= 0 {
        S::zero_spec()
    } else {
        let (s, k) = ((n - 1) / 4, 4 * ((n - 1) % 4) + c);
        let b = q6k_block(row, s);
        scaled(
            q6k_chain(row, x, xs, l, c, n - 1),
            quarter(q6k_run_term(b, x_block(x, s), k), l),
            q6k_factor(b, k, xs[8 * s + k / 2]),
        )
    }
}

/// Lane `l` of all four chains together.
pub open spec fn q6k_joined<S: Scalar>(row: Seq<u8>, x: Seq<i8>, xs: Seq<S>, l: int, n: int) -> S {
    paired(
        q6k_chain(row, x, xs, l, 0, n),
        q6k_chain(row, x, xs, l, 1, n),
        q6k_chain(row, x, xs, l, 2, n),
        q6k_chain(row, x, xs, l, 3, n),
    )
}

/// The first `4 * n` runs of sixteen of a Q6_K row times activations that carry one
/// scale per 32, with every fourth run in a chain of its own.
pub open spec fn q6k_split_value<S: Scalar>(row: Seq<u8>, x: Seq<i8>, xs: Seq<S>, n: int) -> S {
    paired(
        q6k_joined(row, x, xs, 0, n),
        q6k_joined(row, x, xs, 1, n),
        q6k_joined(row, x, xs, 2, n),
        q6k_joined(row, x, xs, 3, n),
    )
}

/// All chains start from zero.
proof fn lemma_chains_start<S: Scalar>(row: Seq<u8>, x: Seq<i8>, xs: Seq<S>)
    ensures
        forall|l: int, c: int| #[trigger] q6k_chain(row, x, xs, l, c, 0) == S::zero_spec(),
{
    reveal_with_fuel(q6k_chain, 1);
}

/// Run `4 * i + c` of super-block `sb` adds one step to its chain.
proof fn lemma_q6k_chain<S: Scalar>(
    row: Seq<u8>,
    x: Seq<i8>,
    xs: Seq<S>,
    sb: int,
    i: int,
    l: int,
    c: int,
)
    requires
        0 <= sb,
        0 <= i < 4,
        0 <= c < 4,
    ensures
        ({
            let (b, k) = (q6k_block(row, sb), 4 * i + c);
            q6k_chain(row, x, xs, l, c, 4 * sb + i + 1) == scaled(
                q6k_chain(row, x, xs, l, c, 4 * sb + i),
                quarter(q6k_run_term(b, x_block(x, sb), k), l),
                q6k_factor(b, k, xs[8 * sb + k / 2]),
            )
        }),
{
    reveal_with_fuel(q6k_chain, 1);
    let n = 4 * sb + i + 1;
    assert((n - 1) / 4 == sb && (n - 1) % 4 == i);
}

/// The lanes are those of a chain after `n` steps.
spec fn is_chain<S: Scalar>(
    sums: Lanes<S>,
    row: Seq<u8>,
    x: Seq<i8>,
    xs: Seq<S>,
    c: int,
    n: int,
) -> bool {
    &&& sums.a == q6k_chain(row, x, xs, 0, c, n)
    &&& sums.b == q6k_chain(row, x, xs, 1, c, n)
    &&& sums.c == q6k_chain(row, x, xs, 2, c, n)
    &&& sums.d == q6k_chain(row, x, xs, 3, c, n)
}

/// A chain grows by its four runs of a super-block; `t` holds the codes.
fn q6k_grow_chain<S: Scalar>(
    sums: Lanes<S>,
    row: &[u8],
    sb: usize,
    t: &[i8],
    xq: &[i8],
    xs: &[S],
    c: usize,
) -> (r: Lanes<S>)
    requires
        sb * 210 + 210 <= row.len(),
        sb * 256 + 256 <= xq.len(),
        8 * sb + 8 <= xs.len(),
        c < 4,
        t.len() == 256,
        forall|l: int|
            0 <= l < 256 ==> #[trigger] t@[l] == q6k_code(q6k_block(row@, sb as int), l),
        forall|l: int| 0 <= l < 256 ==> -32 <= #[trigger] t@[l] < 32,
        is_chain(sums, row@, xq@, xs@, c as int, 4 * sb),
    ensures
        is_chain(r, row@, xq@, xs@, c as int, 4 * sb + 4),
{
    let b = slice_subrange(row, sb * 210, sb * 210 + 210);
    let x = slice_subrange(xq, sb * 256, sb * 256 + 256);
    let d: S = S::of_bits(read_half(b, 208));
    let mut out: Lanes<S> = sums;
    for i in 0..4usize
        invariant
            8 * sb + 8 <= xs.len(),
            c < 4,
            b@ == q6k_block(row@, sb as int),
            x@ == x_block(xq@, sb as int),
            b.len() == 210,
            x.len() == 256,
            t.len() == 256,
            forall|l: int| 0 <= l < 256 ==> #[trigger] t@[l] == q6k_code(b@, l),
            forall|l: int| 0 <= l < 256 ==> -32 <= #[trigger] t@[l] < 32,
            d == q6k_d::<S>(b@),
            is_chain(out, row@, xq@, xs@, c as int, 4 * sb + i),
    {
        let k: usize = 4 * i + c;
        proof {
            lemma_q6k_chain(row@, xq@, xs@, sb as int, i as int, 0, c as int);
            lemma_q6k_chain(row@, xq@, xs@, sb as int, i as int, 1, c as int);
            lemma_q6k_chain(row@, xq@, xs@, sb as int, i as int, 2, c as int);
            lemma_q6k_chain(row@, xq@, xs@, sb as int, i as int, 3, c as int);
        }
        let sc: i8 = as_signed(b[192 + k]);
        let dots: (i32, i32, i32, i32) = (
            q6k_quarter(t, x, k, 0, Ghost(b@)),
            q6k_quarter(t, x, k, 1, Ghost(b@)),
            q6k_quarter(t, x, k, 2, Ghost(b@)),
            q6k_quarter(t, x, k, 3, Ghost(b@)),
        );
        out = out.grow(dots, xs[8 * sb + k / 2].times(d).times(S::of_int(sc as i64)));
    }
    out
}

/// A Q6_K row times activations that carry one scale per 32, with every fourth run
/// of sixteen in a chain of its own. Columns beyond the last whole super-block are
/// left out.
pub fn q6k_dot_split<S: Scalar>(row: &[u8], xq: &[i8], xs: &[S], cols: usize) -> (r: S)
    requires
        row.len() >= cols / 256 * 210,
        xq.len() >= cols / 256 * 256,
        xs.len() >= cols / 256 * 8,
    ensures
        r == q6k_split_value(row@, xq@, xs@, cols as int / 256 * 4),
{
    let (mut f0, mut f1): (Lanes<S>, Lanes<S>) = (Lanes::zero(), Lanes::zero());
    let (mut f2, mut f3): (Lanes<S>, Lanes<S>) = (Lanes::zero(), Lanes::zero());
    proof {
        lemma_chains_start(row@, xq@, xs@);
    }
    for sb in 0..cols / 256
        invariant
            row.len() >= cols / 256 * 210,
            xq.len() >= cols / 256 * 256,
            xs.len() >= cols / 256 * 8,
            is_chain(f0, row@, xq@, xs@, 0, 4 * sb),
            is_chain(f1, row@, xq@, xs@, 1, 4 * sb),
            is_chain(f2, row@, xq@, xs@, 2, 4 * sb),
            is_chain(f3, row@, xq@, xs@, 3, 4 * sb),
    {
        let t = q6k_unpack(slice_subrange(row, sb * 210, sb * 210 + 210));
        f0 = q6k_grow_chain(f0, row, sb, t.as_slice(), xq, xs, 0);
        f1 = q6k_grow_chain(f1, row, sb, t.as_slice(), xq, xs, 1);
        f2 = q6k_grow_chain(f2, row, sb, t.as_slice(), xq, xs, 2);
        f3 = q6k_grow_chain(f3, row, sb, t.as_slice(), xq, xs, 3);
    }
    f0.with(&f1).with(&f2.with(&f3)).total()
}

/// The first `n` super-blocks of a row times activations that carry one scale per
/// 256: each adds `y * d * acc`, with the integer sum `acc` of scales, codes and
/// activations.
pub open spec fn q6k_int_value<S: Scalar>(row: Seq<u8>, x: Seq<i8>, ys: Seq<S>, n: int) -> S
    decreases n,
{
    if n <= 0 {
        S::zero_spec()
    } else {
        let b = q6k_block(row, n - 1);
        q6k_int_value(row, x, ys, n - 1).plus_spec(
            ys[n - 1].times_spec(q6k_d(b)).times_spec(
                S::of_int_spec(q6k_acc(b, x_block(x, n - 1)) as i64),
            ),
        )
    }
}

/// A Q6_K row times activations that carry one scale per 256, accumulated in
/// integers within a super-block. Columns beyond the last whole super-block are
/// left out.
pub fn q6k_dot_int<S: Scalar>(row: &[u8], xq: &[i8], ys: &[S], cols: usize) -> (r: S)
    requires
        row.len() >= cols / 256 * 210,
        xq.len() >= cols / 256 * 256,
        ys.len() >= cols / 256,
    ensures
        r == q6k_int_value(row@, xq@, ys@, cols as int / 256),
{
    let mut out: S = S::zero();
    for sb in 0..cols / 256
        invariant
            row.len() >= cols / 256 * 210,
            xq.len() >= cols / 256 * 256,
            ys.len() >= cols / 256,
            out == q6k_int_value(row@, xq@, ys@, sb as int),
    {
        let b = slice_subrange(row, sb * 210, sb * 210 + 210);
        let x = slice_subrange(xq, sb * 256, sb * 256 + 256);
        let p = q6k_parts(b, x);
        let t = q6k_gather(&p, Ghost(b@), Ghost(x@));
        out = out.plus(ys[sb].times(S::of_bits(t.d)).times(S::of_int(t.acc as i64)));
    }
    out
}

/// The factors of a weight: scale and code.
pub struct Q6Weight {
    pub sc: i8,
    pub code: i8,
}

/// The factors of weight `l` of the super-block `b`.
pub open spec fn q6k_weight(b: Seq<u8>, l: int) -> Q6Weight {
    Q6Weight { sc: q6k_scale(b, l / 16) as i8, code: q6k_code(b, l) as i8 }
}

/// Weight `l` of a super-block: `d * scale * code`.
pub open spec fn q6k_plain<S: Scalar>(b: Seq<u8>, l: int) -> S {
    let w = q6k_weight(b, l);
    q6k_d::<S>(b).times_spec(S::of_int_spec(w.sc as i64)).times_spec(S::of_int_spec(w.code as i64))
}

/// All 256 weights of a super-block.
pub fn dequant_q6k<S: Scalar>(b: &[u8]) -> (r: Vec<S>)
    requires
        b.len() >= 210,
    ensures
        r@ == Seq::new(256, |l: int| q6k_plain::<S>(b@, l)),
{
    let d: S = S::of_bits(read_half(b, 208));
    let mut out: Vec<S> = Vec::new();
    for l in 0..256usize
        invariant
            b.len() >= 210,
            d == q6k_d::<S>(b@),
            out@ == Seq::new(l as nat, |k: int| q6k_plain::<S>(b@, k)),
    {
        let (sc, code): (i8, i8) = (as_signed(b[192 + l / 16]), q6k_code_at(b, l));
        let ghost w = q6k_weight(b@, l as int);
        assert(w.sc == sc && w.code == code);
        out.push(d.times(S::of_int(sc as i64)).times(S::of_int(code as i64)));
    }
    out
}

/// Weight `l` dequantized with an integer factor, times its activation.
pub open spec fn q6k_exact_term(b: Seq<u8>, x: Seq<i8>, d: int) -> spec_fn(int) -> int {
    |l: int|
        {
            let w = q6k_weight(b, l);
            d * w.sc * w.code * x[l]
        }
}

pub proof fn lemma_code_range(b: Seq<u8>, l: int)
    requires
        b.len() == 210,
        0 <= l < 256,
    ensures
        -32 <= q6k_code(b, l) < 32,
        -128 <= q6k_scale(b, l / 16) < 128,
{
}

/// The integer accumulation is exact: whatever the factor `d`, the gathered term
/// of a super-block is the dot product of its dequantized weights with the
/// activations.
pub proof fn q6k_term_is_dequantized_dot(b: Seq<u8>, x: Seq<i8>, d: int)
    requires
        b.len() == 210,
        x.len() == 256,
    ensures
        d * q6k_acc(b, x) == sum(256, q6k_exact_term(b, x, d)),
{
    let f = q6k_term(b, x);
    let h = q6k_exact_term(b, x, d);
    let zero = |l: int| 0int;
    assert forall|l: int| 0 <= l < 256 implies #[trigger] h(l) == d * f(l) + 0 * zero(l) by {
        lemma_code_range(b, l);
        let (a, c, v) = (q6k_scale(b, l / 16), q6k_code(b, l), x[l] as int);
        lemma_mul_is_associative(d, a, c);
        lemma_mul_is_associative(d, a * c, v);
    }
    lemma_sum_linear(256, d, f, 0, zero, h);
    assert(0 * sum(256, zero) == 0) by (nonlinear_arith);
}

/// What run `k` adds to a row's value, with integer factors.
pub open spec fn q6k_scaled_part(b: Seq<u8>, x: Seq<i8>, d: int, xs: spec_fn(int) -> int) -> spec_fn(
    int,
) -> int {
    |k: int| xs(k / 2) * d * q6k_scale(b, k) * q6k_run_dot(b, x, k)
}

/// Weight `l` dequantized with an integer factor, times its scaled activation.
pub open spec fn q6k_scaled_term(b: Seq<u8>, x: Seq<i8>, d: int, xs: spec_fn(int) -> int) -> spec_fn(
    int,
) -> int {
    |l: int| xs(l / 32) * q6k_exact_term(b, x, d)(l)
}

/// With a scale per 32 activations the parts are exact as well: the sum over the
/// sixteen runs of `x`-scale times `d * scale * dot` is the dot product of the
/// dequantized weights with the scaled activations.
pub proof fn q6k_parts_are_dequantized_dot(
    b: Seq<u8>,
    x: Seq<i8>,
    d: int,
    xs: spec_fn(int) -> int,
)
    requires
        b.len() == 210,
        x.len() == 256,
    ensures
        sum(16, q6k_scaled_part(b, x, d, xs)) == sum(256, q6k_scaled_term(b, x, d, xs)),
{
    let group = q6k_scaled_part(b, x, d, xs);
    let f = q6k_scaled_term(b, x, d, xs);
    let term = |k: int| (|i: int| xs(k / 2) * d * q6k_scale(b, k) * q6k_run_term(b, x, k)(i));
    assert forall|k: int| 0 <= k < 16 implies #[trigger] group(k) == sum(16, term(k)) by {
        let zero = |i: int| 0int;
        let p = xs(k / 2) * d * q6k_scale(b, k);
        let (g, t) = (q6k_run_term(b, x, k), term(k));
        assert forall|i: int| 0 <= i < 16 implies #[trigger] t(i) == p * g(i) + 0 * zero(i) by {}
        lemma_sum_linear(16, p, g, 0, zero, t);
        assert(0 * sum(16, zero) == 0) by (nonlinear_arith);
    }
    assert forall|k: int, i: int| 0 <= k < 16 && 0 <= i < 16 implies #[trigger] term(k)(i) == f(
        k * 16 + i,
    ) by {
        let l = k * 16 + i;
        assert(l / 16 == k && l / 32 == k / 2);
        lemma_code_range(b, l);
        let (y, a, c, v) = (xs(k / 2), q6k_scale(b, k), q6k_code(b, l), x[l] as int);
        assert(y * d * a * (c * v) == y * (d * a * c * v)) by {
            lemma_mul_is_associative(y, d, a);
            lemma_mul_is_associative(y, d * a, c * v);
            lemma_mul_is_associative(d * a, c, v);
        }
    }
    lemma_sum_groups(16, 16, f, group, term);
}

} // verus!
