//! What the activations, the levels and the stretched angles come to where nothing
//! rounds.
use crate::activation::{clamped_gate, plain_gate, MINUS_ALPHA};
use crate::algebra::{
    lemma_cancel, lemma_group, lemma_keeps_order, lemma_simple, lemma_spread, lemma_swap,
};
use crate::analytic::Analytic;
use crate::ideal::{is_ideal, reads};
use crate::quantize::{
    bf16_row, level_of, levels_of, peak, rows_are_placed, rows_levels, rows_scales, scale_of,
    scales_of, LEAST_PEAK,
};
use crate::scalar::Scalar;
use crate::yarn::{kept, mixed_angle, LEAST_RAMP};
use vstd::arithmetic::power2::{
    lemma2_to64, lemma2_to64_rest, lemma_pow2_adds, lemma_pow2_pos, pow2,
};
use vstd::prelude::*;

verus! {

// -------------------------------------------------------------------- constants

/// A single with the exponent field `e` and the fraction field `m` is that fraction
/// and one, over a power of two.
#[verifier::rlimit(40)]
proof fn lemma_single<S: Scalar>(v: spec_fn(S) -> real, bits: u32, e: int, m: int)
    requires
        reads(v),
        1 <= e <= 150,
        0 <= m < 0x80_0000,
        bits as int == 0x80_0000 * e + m || bits as int == 0x8000_0000 + 0x80_0000 * e + m,
    ensures
        v(S::of_bits_spec(bits)) * (pow2((150 - e) as nat) as real) == if bits < 0x8000_0000 {
            (0x80_0000 + m) as real
        } else {
            0real - (0x80_0000 + m) as real
        },
{
    assert((bits as int / 0x80_0000) % 256 == e);
    assert(bits as int % 0x80_0000 == m);
    let (a, b) = (pow2((e - 1) as nat), pow2((150 - e) as nat));
    lemma_pow2_adds((e - 1) as nat, (150 - e) as nat);
    lemma_pow2_pos((e - 1) as nat);
    assert(pow2(149) == a * b);
    let (p, q) = (a as real, b as real);
    assert((a * b) as real == p * q) by (nonlinear_arith)
        requires
            p == a as real,
            q == b as real,
    ;
    let f: int = 0x80_0000 + m;
    assert((f * a) as real == (f as real) * p) by (nonlinear_arith)
        requires
            p == a as real,
    ;
    let x = v(S::of_bits_spec(bits));
    lemma_swap(p, q);
    lemma_group(x, q, p);
    let s = if bits < 0x8000_0000 {
        f as real
    } else {
        0real - f as real
    };
    lemma_spread(0real, f as real, p);
    lemma_simple(p);
    assert((x * q) * p == s * p);
    lemma_cancel(x * q, s, p);
}

/// The number that the gating operand is multiplied with is minus 1.702, to seven
/// places.
pub proof fn alpha_is_its_number<S: Scalar>(v: spec_fn(S) -> real)
    requires
        reads(v),
    ensures
        v(S::of_bits_spec(MINUS_ALPHA)) * 8388608real == -14277411real,
{
    lemma_single(v, MINUS_ALPHA, 127, 0x59_db23);
    lemma2_to64();
    lemma2_to64_rest();
    assert(pow2(23) == 8388608);
}

/// The least distance between the bounds of a stretch is a thousandth, to seven
/// places.
pub proof fn least_ramp_is_a_thousandth<S: Scalar>(v: spec_fn(S) -> real)
    requires
        reads(v),
    ensures
        v(S::of_bits_spec(LEAST_RAMP)) * 8589934592real == 8589935real,
        0real < v(S::of_bits_spec(LEAST_RAMP)),
{
    lemma_single(v, LEAST_RAMP, 117, 0x3_126f);
    lemma2_to64();
    lemma2_to64_rest();
    assert(pow2(33) == 8589934592);
}

/// The least magnitude that a run is taken to reach is 10^-12, to seven places.
pub proof fn least_peak_is_small<S: Scalar>(v: spec_fn(S) -> real)
    requires
        reads(v),
    ensures
        v(S::of_bits_spec(LEAST_PEAK)) * 9223372036854775808real == 9223372real,
        0real < v(S::of_bits_spec(LEAST_PEAK)),
{
    lemma_single(v, LEAST_PEAK, 87, 0xc_bccc);
    lemma2_to64();
    lemma2_to64_rest();
    assert(pow2(63) == 9223372036854775808);
}

// ----------------------------------------------------------------------- angles

/// Between the bounds the part of its own angle that a pair keeps falls in proportion
/// to its number, from all of it at the lower bound to nothing at the upper.
pub proof fn kept_falls_in_proportion<S: Analytic>(
    v: spec_fn(S) -> real,
    i: usize,
    low: S,
    high: S,
)
    requires
        is_ideal(v),
        i <= i64::MAX,
        v(high) - v(low) >= v(S::of_bits_spec(LEAST_RAMP)),
    ensures
        i as real <= v(low) ==> v(kept(i, low, high)) == 1real,
        i as real >= v(high) ==> v(kept(i, low, high)) == 0real,
        v(low) <= i as real <= v(high) ==> v(kept(i, low, high)) * (v(high) - v(low)) == v(high)
            - i as real,
{
    least_ramp_is_a_thousandth(v);
    lemma_kept(v, i, low, high, v(high) - v(low));
}

proof fn lemma_kept<S: Analytic>(v: spec_fn(S) -> real, i: usize, low: S, high: S, ramp: real)
    requires
        is_ideal(v),
        i <= i64::MAX,
        ramp > 0real,
        v(high.minus_spec(low).larger_spec(S::of_bits_spec(LEAST_RAMP))) == ramp,
    ensures
        i as real <= v(low) ==> v(kept(i, low, high)) == 1real,
        i as real >= v(low) + ramp ==> v(kept(i, low, high)) == 0real,
        v(low) <= i as real <= v(low) + ramp ==> v(kept(i, low, high)) * ramp == v(low) + ramp
            - i as real,
{
    let number = S::of_int_spec(i as i64);
    let wide = high.minus_spec(low).larger_spec(S::of_bits_spec(LEAST_RAMP));
    let ratio = number.minus_spec(low).over_spec(wide);
    let one = S::of_int_spec(1);
    let cut = ratio.clamped_spec(S::zero_spec(), one);
    let (y, n, l) = (v(ratio), i as real, v(low));
    assert(v(number) == n);
    assert(v(one) == 1real);
    assert(y * ramp == n - l);
    assert(v(kept(i, low, high)) == 1real - v(cut));
    lemma_keeps_order(y, 0real, ramp);
    lemma_keeps_order(0real, y, ramp);
    lemma_keeps_order(y, 1real, ramp);
    lemma_keeps_order(1real, y, ramp);
    lemma_simple(ramp);
    lemma_spread(1real, y, ramp);
}

/// Bounds that are closer than a thousandth are taken to be that far apart.
pub proof fn kept_falls_over_a_thousandth<S: Analytic>(
    v: spec_fn(S) -> real,
    i: usize,
    low: S,
    high: S,
)
    requires
        is_ideal(v),
        i <= i64::MAX,
        v(high) - v(low) < v(S::of_bits_spec(LEAST_RAMP)),
    ensures
        i as real <= v(low) ==> v(kept(i, low, high)) == 1real,
        i as real >= v(low) + v(S::of_bits_spec(LEAST_RAMP)) ==> v(kept(i, low, high)) == 0real,
        v(low) <= i as real <= v(low) + v(S::of_bits_spec(LEAST_RAMP)) ==> v(kept(i, low, high)) * v(
            S::of_bits_spec(LEAST_RAMP),
        ) == v(low) + v(S::of_bits_spec(LEAST_RAMP)) - i as real,
{
    least_ramp_is_a_thousandth(v);
    lemma_kept(v, i, low, high, v(S::of_bits_spec(LEAST_RAMP)));
}

/// A stretched angle is the angle itself up to the lower bound and a 32nd of it from
/// the upper bound on, and between the bounds it falls in proportion to the number of
/// the pair.
#[verifier::rlimit(40)]
pub proof fn stretched_angle_falls_in_proportion<S: Analytic>(
    v: spec_fn(S) -> real,
    angle: S,
    i: usize,
    low: S,
    high: S,
)
    requires
        is_ideal(v),
        i <= i64::MAX,
        v(high) - v(low) >= v(S::of_bits_spec(LEAST_RAMP)),
    ensures
        i as real <= v(low) ==> v(mixed_angle(angle, i, low, high)) == v(angle),
        i as real >= v(high) ==> 32real * v(mixed_angle(angle, i, low, high)) == v(angle),
        v(low) <= i as real <= v(high) ==> 32real * v(mixed_angle(angle, i, low, high)) * (v(high)
            - v(low)) == v(angle) * ((v(high) - v(low)) + 31real * (v(high) - i as real)),
{
    least_ramp_is_a_thousandth(v);
    kept_falls_in_proportion(v, i, low, high);
    let mix = kept(i, low, high);
    let one = S::of_int_spec(1);
    let slow = angle.over_spec(S::of_int_spec(32));
    let rest = one.minus_spec(mix);
    let r = mixed_angle(angle, i, low, high);
    let (a, k, s) = (v(angle), v(mix), v(slow));
    assert(v(one) == 1real);
    assert(v(S::of_int_spec(32)) == 32real);
    assert(s * 32real == a);
    assert(v(r) == s * (1real - k) + a * k);
    lemma_spread(1real, k, s);
    lemma_simple(s);
    assert(v(r) == s - s * k + a * k);
    lemma_group(32real, s, k);
    assert(32real * (s * k) == a * k);
    assert(32real * v(r) == a + 31real * (a * k));
    lemma_simple(a);
    if v(low) <= i as real <= v(high) {
        let ramp = v(high) - v(low);
        assert(k * ramp == v(high) - i as real);
        lemma_spread(a, 31real * (a * k), ramp);
        lemma_group(31real, a * k, ramp);
        lemma_group(a, k, ramp);
        lemma_spread(ramp, 31real * (k * ramp), a);
        lemma_group(31real, k * ramp, a);
        lemma_swap(k * ramp, a);
        lemma_swap(31real * (k * ramp), a);
    }
}

// ------------------------------------------------------------------ activations

/// One over one and an exponential, times a number.
proof fn lemma_gated<S: Analytic>(v: spec_fn(S) -> real, x: S, t: S, y: S) -> (r: real)
    requires
        is_ideal(v),
    ensures
        r == v(x.over_spec(S::of_int_spec(1).plus_spec(t.exp_spec())).times_spec(y)),
        r * (1real + v(t.exp_spec())) == v(x) * v(y),
{
    let one = S::of_int_spec(1);
    let under = one.plus_spec(t.exp_spec());
    let q = x.over_spec(under);
    assert(v(one) == 1real);
    let d = 1real + v(t.exp_spec());
    assert(v(under) == d && d > 0real);
    assert(v(q) * d == v(x));
    let r = v(q) * v(y);
    lemma_group(v(q), v(y), d);
    lemma_swap(v(y), d);
    lemma_group(v(q), d, v(y));
    r
}

/// The exponent `t` is the gating operand, kept at 7 at most, times minus 1.702.
pub open spec fn is_gated<S: Analytic>(v: spec_fn(S) -> real, g: S, t: S) -> bool {
    &&& is_ideal(v)
    &&& v(t) * 8388608real == -14277411real * (if v(g) < 7real {
        v(g)
    } else {
        7real
    })
}

/// The exponent `t` is the opposite of the gating operand.
pub open spec fn is_opposite<S: Analytic>(v: spec_fn(S) -> real, g: S, t: S) -> bool {
    is_ideal(v) && v(t) == 0real - v(g)
}

/// The clamped activation is the gating operand, kept at 7 at most, over one and the
/// exponential of it times minus 1.702, times the other operand, kept within 7 of
/// zero, and one; `t` is the exponent.
#[verifier::rlimit(40)]
pub proof fn clamped_gate_is_a_bounded_sigmoid<S: Analytic>(
    v: spec_fn(S) -> real,
    g: S,
    u: S,
    t: S,
)
    requires
        is_gated(v, g, t),
    ensures
        v(clamped_gate(g, u)) * (1real + v(t.exp_spec())) == (if v(g) < 7real {
            v(g)
        } else {
            7real
        }) * (1real + if v(u) < -7real {
            -7real
        } else if v(u) > 7real {
            7real
        } else {
            v(u)
        }),
{
    let (seven, less) = (S::of_int_spec(7), S::of_int_spec((-7int) as i64));
    assert(v(seven) == 7real && v(less) == -7real);
    let x = g.smaller_spec(seven);
    let y = u.clamped_spec(less, seven);
    let one = S::of_int_spec(1);
    assert(v(one) == 1real);
    let p = S::of_bits_spec(MINUS_ALPHA).times_spec(x);
    alpha_is_its_number(v);
    let al = v(S::of_bits_spec(MINUS_ALPHA));
    lemma_swap(al, 8388608real);
    lemma_group(8388608real, al, v(x));
    lemma_swap(8388608real, v(p));
    assert(v(p) * 8388608real == v(t) * 8388608real);
    lemma_cancel(v(p), v(t), 8388608real);
    assert(v(p.exp_spec()) == v(t.exp_spec()));
    let r = lemma_gated(v, x, p, y.plus_spec(one));
    assert(r == v(clamped_gate(g, u)));
}

/// The activation without bounds is the gating operand over one and the exponential of
/// its opposite `t`, times the other operand.
pub proof fn plain_gate_is_a_sigmoid<S: Analytic>(v: spec_fn(S) -> real, g: S, u: S, t: S)
    requires
        is_opposite(v, g, t),
    ensures
        v(plain_gate(g, u)) * (1real + v(t.exp_spec())) == v(g) * v(u),
{
    let less = S::of_int_spec((-1int) as i64);
    assert(v(less) == -1real);
    let p = less.times_spec(g);
    assert(v(p) == 0real - v(g));
    assert(v(p.exp_spec()) == v(t.exp_spec()));
    let r = lemma_gated(v, g, p, u);
    assert(r == v(plain_gate(g, u)));
}

// ----------------------------------------------------------------------- levels

/// The magnitude of a real.
pub open spec fn size(a: real) -> real {
    if a < 0real {
        0real - a
    } else {
        a
    }
}

/// The peak of a run is above the magnitude of each of its numbers and is that of one
/// of them, or else the least peak.
pub proof fn peak_is_the_greatest_magnitude<S: Analytic>(
    v: spec_fn(S) -> real,
    x: Seq<S>,
    at: int,
    n: int,
)
    requires
        is_ideal(v),
        0 <= n,
    ensures
        v(peak(x, at, n)) >= v(S::of_bits_spec(LEAST_PEAK)) > 0real,
        forall|i: int| at <= i < at + n ==> size(v(#[trigger] x[i])) <= v(peak(x, at, n)),
        v(peak(x, at, n)) == v(S::of_bits_spec(LEAST_PEAK)) || exists|i: int|
            at <= i < at + n && size(v(#[trigger] x[i])) == v(peak(x, at, n)),
    decreases n,
{
    least_peak_is_small(v);
    if n > 0 {
        peak_is_the_greatest_magnitude(v, x, at, n - 1);
        assert(size(v(x[at + n - 1])) <= v(peak(x, at, n)));
    }
}

/// The levels `q` and the scale `s` stand for the `n` numbers of `x` from place `at` on:
/// no magnitude is above 127 scales and the greatest is just that, unless all are below
/// the least peak, and each number lies within half a scale of its level times the scale.
pub open spec fn stands_for<S: Analytic>(
    v: spec_fn(S) -> real,
    q: Seq<i8>,
    s: S,
    x: Seq<S>,
    at: int,
    n: int,
) -> bool {
    &&& q.len() == n
    &&& v(s) > 0real
    &&& 127real * v(s) == v(S::of_bits_spec(LEAST_PEAK)) || exists|i: int|
        at <= i < at + n && size(v(#[trigger] x[i])) == 127real * v(s)
    &&& forall|i: int|
        at <= i < at + n ==> size(v(#[trigger] x[i])) <= 127real * v(s) && 2real * size(
            q[i - at] as real * v(s) - v(x[i]),
        ) <= v(s)
}

/// The levels of a run and its scale stand for the run.
pub proof fn levels_stand_for_their_run<S: Analytic>(
    v: spec_fn(S) -> real,
    q: Seq<i8>,
    x: Seq<S>,
    at: int,
    n: int,
)
    requires
        is_ideal(v),
        q.len() == n,
        forall|k: int| 0 <= k < n ==> #[trigger] q[k] == level_of(x[at + k], scale_of(x, at, n)),
    ensures
        stands_for(v, q, scale_of(x, at, n), x, at, n),
{
    peak_is_the_greatest_magnitude(v, x, at, n);
    let scale = scale_of(x, at, n);
    let s = v(scale);
    assert(v(S::of_int_spec(127)) == 127real);
    assert(s * 127real == v(peak(x, at, n)));
    assert(s > 0real);
    assert forall|i: int| at <= i < at + n implies size(v(#[trigger] x[i])) <= 127real * s && 2real
        * size(q[i - at] as real * s - v(x[i])) <= s by {
        lemma_level(v, x[i], scale);
        assert(q[i - at] == level_of(x[at + (i - at)], scale));
    }
}

/// A number that no more than 127 scales measure lies within half a scale of its level
/// times the scale.
proof fn lemma_level<S: Analytic>(v: spec_fn(S) -> real, x: S, scale: S)
    requires
        is_ideal(v),
        v(scale) > 0real,
        size(v(x)) <= 127real * v(scale),
    ensures
        2real * size(level_of(x, scale) as real * v(scale) - v(x)) <= v(scale),
{
    let ratio = x.over_spec(scale);
    let (s, t) = (v(scale), v(ratio));
    let q = level_of(x, scale) as real;
    assert(t * s == v(x));
    lemma_keeps_order(t, 127real, s);
    lemma_keeps_order(-127real, t, s);
    assert(-127real <= t <= 127real);
    let d = q - t;
    assert(-1real <= 2real * d <= 1real);
    lemma_spread(q, t, s);
    lemma_keeps_order(2real * d, 1real, s);
    lemma_keeps_order(-1real, 2real * d, s);
    lemma_group(2real, d, s);
    lemma_simple(s);
}

/// The levels and the scales of a vector stand for it, block by block.
#[verifier::rlimit(40)]
pub proof fn levels_stand_for_each_block<S: Analytic>(
    v: spec_fn(S) -> real,
    x: Seq<S>,
    block: int,
)
    requires
        is_ideal(v),
        x.len() % 32 == 0,
        0 <= block < x.len() as int / 32,
    ensures
        levels_of(x).len() == x.len(),
        scales_of(x).len() == x.len() as int / 32,
        stands_for(
            v,
            levels_of(x).subrange(32 * block, 32 * block + 32),
            scales_of(x)[block],
            x,
            32 * block,
            32,
        ),
{
    let q = levels_of(x);
    let run = q.subrange(32 * block, 32 * block + 32);
    assert forall|k: int| 0 <= k < 32 implies #[trigger] run[k] == level_of(
        x[32 * block + k],
        scale_of(x, 32 * block, 32),
    ) by {
        let i = 32 * block + k;
        assert(i / 32 * 32 == 32 * block);
        assert(q[i] == levels_of(x)[i]);
    }
    levels_stand_for_their_run(v, run, x, 32 * block, 32);
}

/// A matrix of 16-bit floats in levels stands for its rows, block by block: in each block
/// of 32 columns of a row the levels and the scale stand for the numbers of the file.
#[verifier::rlimit(40)]
pub proof fn matrix_stands_for_its_rows<S: Analytic>(
    v: spec_fn(S) -> real,
    blob: Seq<u8>,
    at: int,
    rows: int,
    cols: int,
    r: int,
    block: int,
    row: Seq<S>,
)
    requires
        is_ideal(v),
        cols % 32 == 0,
        0 <= r < rows,
        0 <= block < cols / 32,
        row.len() == cols,
        forall|j: int|
            0 <= j < cols ==> #[trigger] row[j] == S::of_bits_spec(
                (0x1_0000 * (blob[at + 2 * (r * cols + j)] + 256 * blob[at + 2 * (r * cols + j)
                    + 1])) as u32,
            ),
    ensures
        ({
            let (q, s) = (
                rows_levels::<S>(blob, at, 0, rows, cols),
                rows_scales::<S>(blob, at, 0, rows, cols),
            );
            let from = r * cols + 32 * block;
            &&& q.len() == rows * cols && s.len() == rows * (cols / 32)
            &&& stands_for(
                v,
                q.subrange(from, from + 32),
                s[r * (cols / 32) + block],
                row,
                32 * block,
                32,
            )
        }),
{
    let (q, s) = (
        rows_levels::<S>(blob, at, 0, rows, cols),
        rows_scales::<S>(blob, at, 0, rows, cols),
    );
    let nb = cols / 32;
    rows_are_placed::<S>(blob, at, 0, rows, cols, r);
    assert(bf16_row::<S>(blob, at, 0 + r, cols) == row) by {
        let stored = bf16_row::<S>(blob, at, 0 + r, cols);
        assert forall|j: int| 0 <= j < cols implies #[trigger] stored[j] == row[j] by {}
        assert(stored =~= row);
    }
    levels_stand_for_each_block(v, row, block);
    assert(0 <= r * cols && r * cols + cols <= rows * cols) by (nonlinear_arith)
        requires
            0 <= r,
            r + 1 <= rows,
            0 <= cols,
    ;
    assert(0 <= r * nb && r * nb + nb <= rows * nb) by (nonlinear_arith)
        requires
            0 <= r,
            r + 1 <= rows,
            0 <= nb,
    ;
    let (p, t) = (q.subrange(r * cols, r * cols + cols), s.subrange(r * nb, r * nb + nb));
    let from = r * cols + 32 * block;
    assert(q.subrange(from, from + 32) =~= p.subrange(32 * block, 32 * block + 32));
    assert(s[r * nb + block] == t[block]);
}

} // verus!
