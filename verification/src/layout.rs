//! What the encodings hold: the bytes of a block are made up of its scales and codes
//! alone, each in its own bits, and the bits of a floating-point number grow with its
//! magnitude, one unit of its exponent at a step.
use crate::algebra::{lemma_cancel, lemma_group, lemma_keeps_order};
use crate::half::{half_magnitude, single_magnitude, widens};
use crate::ideal::{adds, reads};
use crate::mxfp4::{mx_code, mx_value, mx_weight, power_of, powers_are_exact};
use crate::q4k::{k4_min, k4_scale, q4k_code};
use crate::q6k::{q6k_code, q6k_scale};
use crate::scalar::{whole_of_bits, Scalar};
use crate::select::{
    above, are_first, before, counts, is_best, is_choice, is_nan, listed, numbers, order, top_list,
    top_list_is_best, LEAST,
};
use vstd::arithmetic::div_mod::{
    lemma_div_non_zero, lemma_div_pos_is_pos, lemma_fundamental_div_mod,
    lemma_fundamental_div_mod_converse, lemma_mod_bound,
};
use vstd::arithmetic::power2::{
    lemma2_to64, lemma_pow2_adds, lemma_pow2_pos, lemma_pow2_unfold, pow2,
};
use vstd::prelude::*;

verus! {

// ----------------------------------------------------------------------- blocks

/// The twelve bytes of the scales and minimums are made up of them: six bits of one of
/// the first four, with the upper two of one of the last four above them, and the lower
/// four of a scale with the lower four of a minimum.
pub proof fn scales_make_up_their_bytes(s: Seq<u8>, j: int)
    requires
        s.len() == 12,
        0 <= j < 4,
    ensures
        0 <= k4_scale(s, j) < 64 && 0 <= k4_scale(s, j + 4) < 64,
        0 <= k4_min(s, j) < 64 && 0 <= k4_min(s, j + 4) < 64,
        s[j] == k4_scale(s, j) + 64 * (k4_scale(s, j + 4) / 16),
        s[j + 4] == k4_min(s, j) + 64 * (k4_min(s, j + 4) / 16),
        s[j + 8] == k4_scale(s, j + 4) % 16 + 16 * (k4_min(s, j + 4) % 16),
{
}

/// A byte of codes holds one of the first 32 codes of its 64 and, above it, the one that
/// stands 32 further.
pub proof fn codes_make_up_their_bytes(b: Seq<u8>, j: int, i: int)
    requires
        b.len() == 144,
        0 <= j < 4,
        0 <= i < 32,
    ensures
        0 <= q4k_code(b, 64 * j + i) < 16 && 0 <= q4k_code(b, 64 * j + 32 + i) < 16,
        b[16 + 32 * j + i] == q4k_code(b, 64 * j + i) + 16 * q4k_code(b, 64 * j + 32 + i),
{
    let (l, m) = (64 * j + i, 64 * j + 32 + i);
    assert(l / 64 == j && l % 32 == i && l / 32 == 2 * j);
    assert(m / 64 == j && m % 32 == i && m / 32 == 2 * j + 1);
}

/// The bytes of six-bit codes: the lower four bits of two codes that stand 64 apart share
/// a byte, and the upper two bits of four codes that stand 32 apart share one. A code is
/// kept with 32 added to it.
#[verifier::rlimit(40)]
pub proof fn six_bit_codes_make_up_their_bytes(b: Seq<u8>, h: int, i: int)
    requires
        b.len() == 210,
        0 <= h < 2,
        0 <= i < 32,
    ensures
        ({
            let (p, q) = (q6k_code(b, 128 * h + i) + 32, q6k_code(b, 128 * h + 32 + i) + 32);
            let (r, s) = (q6k_code(b, 128 * h + 64 + i) + 32, q6k_code(b, 128 * h + 96 + i) + 32);
            &&& 0 <= p < 64 && 0 <= q < 64 && 0 <= r < 64 && 0 <= s < 64
            &&& b[64 * h + i] == p % 16 + 16 * (r % 16)
            &&& b[64 * h + 32 + i] == q % 16 + 16 * (s % 16)
            &&& b[128 + 32 * h + i] == p / 16 + 4 * (q / 16) + 16 * (r / 16) + 64 * (s / 16)
        }),
{
    let (k, l, m, n) = (128 * h + i, 128 * h + 32 + i, 128 * h + 64 + i, 128 * h + 96 + i);
    let (low, next) = (b[64 * h + i] as int, b[64 * h + 32 + i] as int);
    let high = b[128 + 32 * h + i] as int;
    assert(q6k_code(b, k) == low % 16 + 16 * ((high / 1) % 4) - 32) by {
        assert(k / 128 == h && (k % 128) / 32 == 0 && k % 32 == i);
    }
    assert(q6k_code(b, l) == next % 16 + 16 * ((high / 4) % 4) - 32) by {
        assert(l / 128 == h && (l % 128) / 32 == 1 && l % 32 == i);
    }
    assert(q6k_code(b, m) == low / 16 + 16 * ((high / 16) % 4) - 32) by {
        assert(m / 128 == h && (m % 128) / 32 == 2 && m % 32 == i);
    }
    assert(q6k_code(b, n) == next / 16 + 16 * ((high / 64) % 4) - 32) by {
        assert(n / 128 == h && (n % 128) / 32 == 3 && n % 32 == i);
    }
    lemma_nibble_and_field(low % 16, (high / 1) % 4);
    lemma_nibble_and_field(next % 16, (high / 4) % 4);
    lemma_nibble_and_field(low / 16, (high / 16) % 4);
    lemma_nibble_and_field(next / 16, (high / 64) % 4);
    lemma_four_fields(high);
}

proof fn lemma_nibble_and_field(a: int, b: int)
    requires
        0 <= a < 16,
        0 <= b < 4,
    ensures
        0 <= a + 16 * b < 64,
        (a + 16 * b) % 16 == a,
        (a + 16 * b) / 16 == b,
{
}

/// A byte is its four two-bit fields.
proof fn lemma_four_fields(x: int)
    requires
        0 <= x < 256,
    ensures
        x == (x / 1) % 4 + 4 * ((x / 4) % 4) + 16 * ((x / 16) % 4) + 64 * ((x / 64) % 4),
{
}

/// The scale of a run is its byte, taken with a sign.
pub proof fn run_scales_are_signed_bytes(b: Seq<u8>, k: int)
    requires
        b.len() == 210,
        0 <= k < 16,
    ensures
        -128 <= q6k_scale(b, k) < 128,
        b[192 + k] == if q6k_scale(b, k) < 0 {
            q6k_scale(b, k) + 256
        } else {
            q6k_scale(b, k)
        },
{
}

/// A byte of a block of four-bit weights holds the code of one of the first sixteen
/// columns and, above it, that of the column sixteen further.
pub proof fn columns_make_up_their_bytes(nib: Seq<u8>, at: int, i: int)
    requires
        0 <= at,
        0 <= i < 16,
        at + 16 <= nib.len(),
    ensures
        0 <= mx_code(nib, at, i) < 16 && 0 <= mx_code(nib, at, i + 16) < 16,
        nib[at + i] == mx_code(nib, at, i) + 16 * mx_code(nib, at, i + 16),
{
}

/// The values of four-bit weights: the upper half of the codes are the opposites of the
/// lower half, which grow by one up to four and from there on double with every second
/// code.
pub proof fn four_bit_values_grow(code: int)
    requires
        0 <= code < 8,
    ensures
        mx_value(code + 8) == -mx_value(code),
        code <= 4 ==> mx_value(code) == code,
        2 <= code < 6 ==> mx_value(code + 2) == 2 * mx_value(code),
{
}

// --------------------------------------------------------------- floating point

/// The magnitude of the bits `x` without a sign, of which those from `one` on hold the
/// exponent.
spec fn magnitude(x: int, one: int) -> int {
    if x < one {
        x
    } else {
        (one + x % one) * pow2((x / one - 1) as nat)
    }
}

/// The exponent that the bits `x` step by.
spec fn step_exponent(x: int, one: int) -> nat {
    if x < one {
        0
    } else {
        (x / one - 1) as nat
    }
}

#[verifier::rlimit(40)]
proof fn lemma_magnitude_step(x: int, one: int)
    requires
        0 <= x,
        0 < one,
    ensures
        magnitude(x, one) >= 0,
        magnitude(x + 1, one) == magnitude(x, one) + pow2(step_exponent(x, one)),
        pow2(step_exponent(x, one)) > 0,
{
    lemma2_to64();
    lemma_pow2_pos(step_exponent(x, one));
    if x < one - 1 {
    } else if x == one - 1 {
        assert((x + 1) / one == 1 && (x + 1) % one == 0) by {
            lemma_fundamental_div_mod_converse(x + 1, one, 1, 0);
        }
        let u = pow2(0) as int;
        assert(magnitude(x + 1, one) == (one + 0) * u);
        assert((one + 0) * u == one) by (nonlinear_arith)
            requires
                u == 1,
        ;
    } else {
        let (e, m) = (x / one, x % one);
        lemma_fundamental_div_mod(x, one);
        assert(0 <= m < one);
        assert(e >= 1) by {
            lemma_div_non_zero(x, one);
        }
        let u = pow2((e - 1) as nat) as int;
        assert((one + m) * u >= 0) by (nonlinear_arith)
            requires
                one > 0,
                m >= 0,
                u > 0,
        ;
        assert((one + (m + 1)) * u == (one + m) * u + u) by (nonlinear_arith);
        if m < one - 1 {
            lemma_fundamental_div_mod_converse(x + 1, one, e, m + 1);
            assert(magnitude(x + 1, one) == (one + (m + 1)) * u);
        } else {
            assert(one * e + one == one * (e + 1)) by (nonlinear_arith);
            lemma_fundamental_div_mod_converse(x + 1, one, e + 1, 0);
            lemma_pow2_unfold(e as nat);
            assert(one * (2 * u) == (one + one) * u) by (nonlinear_arith);
            assert(one + (m + 1) == one + one);
            let w = pow2(e as nat) as int;
            assert(magnitude(x + 1, one) == (one + 0) * w);
            assert((one + 0) * w == one * (2 * u)) by (nonlinear_arith)
                requires
                    w == 2 * u,
            ;
        }
    }
}

proof fn lemma_half(h: u16)
    ensures
        half_magnitude(h) == magnitude(h as int % 0x8000, 0x400),
{
    let x = h as int % 0x8000;
    assert((h as int / 1024) % 32 == x / 0x400 && h as int % 1024 == x % 0x400);
}

proof fn lemma_single(bits: u32)
    ensures
        single_magnitude(bits) == magnitude(bits as int % 0x8000_0000, 0x80_0000),
{
    let x = bits as int % 0x8000_0000;
    assert((bits as int / 0x80_0000) % 256 == x / 0x80_0000);
    assert(bits as int % 0x80_0000 == x % 0x80_0000);
}

/// The next half is one unit of its exponent further from zero.
pub proof fn next_half_is_one_unit_further(h: u16)
    requires
        h as int % 0x8000 < 0x7bff,
    ensures
        half_magnitude(h) >= 0,
        half_magnitude((h + 1) as u16) - half_magnitude(h) == pow2(
            if h as int % 0x8000 < 0x400 {
                0
            } else {
                ((h as int % 0x8000) / 0x400 - 1) as nat
            },
        ),
        h as int % 0x8000 == 0 ==> half_magnitude(h) == 0,
{
    let x = h as int % 0x8000;
    lemma_half(h);
    lemma_half((h + 1) as u16);
    assert((h + 1) as u16 as int % 0x8000 == x + 1);
    lemma_magnitude_step(x, 0x400);
}

/// The next single is one unit of its exponent further from zero.
pub proof fn next_single_is_one_unit_further(bits: u32)
    requires
        bits as int % 0x8000_0000 < 0x7f7f_ffff,
    ensures
        single_magnitude(bits) >= 0,
        single_magnitude((bits + 1) as u32) - single_magnitude(bits) == pow2(
            if bits as int % 0x8000_0000 < 0x80_0000 {
                0
            } else {
                ((bits as int % 0x8000_0000) / 0x80_0000 - 1) as nat
            },
        ),
        bits as int % 0x8000_0000 == 0 ==> single_magnitude(bits) == 0,
{
    let x = bits as int % 0x8000_0000;
    lemma_single(bits);
    lemma_single((bits + 1) as u32);
    assert((bits + 1) as u32 as int % 0x8000_0000 == x + 1);
    lemma_magnitude_step(x, 0x80_0000);
}

proof fn lemma_magnitudes_rise(x: int, y: int)
    requires
        0 <= x <= y,
    ensures
        0 <= magnitude(x, 0x80_0000) <= magnitude(y, 0x80_0000),
        x < y ==> magnitude(x, 0x80_0000) < magnitude(y, 0x80_0000),
    decreases y - x,
{
    lemma_magnitude_step(x, 0x80_0000);
    if x < y {
        lemma_magnitudes_rise(x + 1, y);
    }
}

/// Of two finite singles the one with the greater bits, but for the sign, is further from
/// zero.
pub proof fn greater_bits_are_further_from_zero(a: u32, b: u32)
    requires
        a as int % 0x8000_0000 < b as int % 0x8000_0000 < 0x7f80_0000,
    ensures
        0 <= single_magnitude(a) < single_magnitude(b),
{
    lemma_single(a);
    lemma_single(b);
    lemma_magnitudes_rise(a as int % 0x8000_0000, b as int % 0x8000_0000);
}

/// The value of a finite single, in units of 2^-149.
pub open spec fn single_units(bits: u32) -> int {
    if bits < 0x8000_0000 {
        single_magnitude(bits)
    } else {
        -single_magnitude(bits)
    }
}

/// Finite singles are ordered as their values are.
pub proof fn singles_are_ordered_by_value(a: u32, b: u32)
    requires
        a as int % 0x8000_0000 < 0x7f80_0000,
        b as int % 0x8000_0000 < 0x7f80_0000,
    ensures
        above(a, b) <==> single_units(a) > single_units(b),
        order(a) == order(b) <==> single_units(a) == single_units(b),
{
    let (x, y) = (a as int % 0x8000_0000, b as int % 0x8000_0000);
    let (p, q) = (single_magnitude(a), single_magnitude(b));
    lemma_further(a, b);
    lemma_further(b, a);
    lemma_signed_order(a >= 0x8000_0000, x, p, b >= 0x8000_0000, y, q);
    lemma_order(a);
    lemma_order(b);
}

proof fn lemma_order(a: u32)
    ensures
        order(a) == if a >= 0x8000_0000 {
            -(a as int % 0x8000_0000)
        } else {
            a as int % 0x8000_0000
        },
{
}

proof fn lemma_further(a: u32, b: u32)
    ensures
        single_magnitude(a) >= 0,
        a as int % 0x8000_0000 == 0 <==> single_magnitude(a) == 0,
        a as int % 0x8000_0000 < b as int % 0x8000_0000 ==> single_magnitude(a) < single_magnitude(
            b,
        ),
        a as int % 0x8000_0000 == b as int % 0x8000_0000 ==> single_magnitude(a)
            == single_magnitude(b),
{
    let (x, y) = (a as int % 0x8000_0000, b as int % 0x8000_0000);
    lemma_single(a);
    lemma_single(b);
    assert(magnitude(0, 0x80_0000) == 0);
    lemma_magnitudes_rise(0, x);
    if x <= y {
        lemma_magnitudes_rise(x, y);
    }
}

proof fn lemma_signed_order(na: bool, x: int, p: int, nb: bool, y: int, q: int)
    requires
        0 <= x && 0 <= y && 0 <= p && 0 <= q,
        x == 0 <==> p == 0,
        y == 0 <==> q == 0,
        x < y ==> p < q,
        y < x ==> q < p,
        x == y ==> p == q,
    ensures
        ({
            let (m, n) = (
                if na {
                    -x
                } else {
                    x
                },
                if nb {
                    -y
                } else {
                    y
                },
            );
            let (r, s) = (
                if na {
                    -p
                } else {
                    p
                },
                if nb {
                    -q
                } else {
                    q
                },
            );
            (m > n <==> r > s) && (m == n <==> r == s)
        }),
{
}

/// A score is above another just where its number is the greater, and what is no number
/// is above nothing and below nothing.
pub proof fn above_is_greater<S: Scalar>(v: spec_fn(S) -> real, a: u32, b: u32)
    requires
        reads(v),
    ensures
        a as int % 0x8000_0000 < 0x7f80_0000 && b as int % 0x8000_0000 < 0x7f80_0000 ==> (above(
            a,
            b,
        ) <==> v(S::of_bits_spec(a)) > v(S::of_bits_spec(b))),
        a as int % 0x8000_0000 > 0x7f80_0000 ==> !above(a, b) && !above(b, a),
{
    if a as int % 0x8000_0000 < 0x7f80_0000 && b as int % 0x8000_0000 < 0x7f80_0000 {
        singles_are_ordered_by_value(a, b);
        lemma_pow2_pos(149);
        let u = pow2(149) as real;
        let (x, y) = (v(S::of_bits_spec(a)), v(S::of_bits_spec(b)));
        assert((a as int / 0x80_0000) % 256 < 255);
        assert((b as int / 0x80_0000) % 256 < 255);
        assert(x * u == single_units(a) as real);
        assert(y * u == single_units(b) as real);
        assert(u > 0real);
        lemma_keeps_order(y, x, u);
        assert(single_units(a) > single_units(b) <==> single_units(a) as real > single_units(
            b,
        ) as real);
    }
}

// ----------------------------------------------------------------- whole numbers

/// The whole part of a single is the greatest integer that is no further from zero: the
/// magnitude of the single lies between it and the next, in units of 2^-149.
pub proof fn whole_part_is_the_nearest_toward_zero(bits: u32)
    requires
        (bits as int / 0x80_0000) % 256 < 158,
    ensures
        ({
            let size = if bits < 0x8000_0000 {
                whole_of_bits(bits)
            } else {
                -whole_of_bits(bits)
            };
            &&& 0 <= size
            &&& size * pow2(149) <= single_magnitude(bits) < (size + 1) * pow2(149)
        }),
{
    let e = (bits as int / 0x80_0000) % 256;
    let m = 0x80_0000 + bits as int % 0x80_0000;
    lemma2_to64();
    let unit = pow2(149) as int;
    let size = if bits < 0x8000_0000 {
        whole_of_bits(bits)
    } else {
        -whole_of_bits(bits)
    };
    if e < 127 {
        lemma_below_one(e, m);
        assert(size == 0);
        assert(0 * unit == 0 && (0 + 1) * unit == unit) by (nonlinear_arith);
    } else if e <= 150 {
        lemma_cut_off(e, m);
        assert(size == m / (pow2((150 - e) as nat) as int));
    } else {
        lemma_scaled_up(e, m);
        assert(size == m * pow2((e - 150) as nat));
    }
}

proof fn lemma_below_one(e: int, m: int)
    requires
        0 <= e < 127,
        0x80_0000 <= m < 0x100_0000,
    ensures
        e > 0 ==> 0 <= m * pow2((e - 1) as nat) < pow2(149),
        0x80_0000 < pow2(149),
{
    lemma2_to64();
    lemma_pow2_adds(24, 125);
    lemma_pow2_pos(125);
    let (w, unit) = (pow2(125) as int, pow2(149) as int);
    assert(unit == 0x100_0000 * w);
    if e > 0 {
        let (a, b) = (pow2((e - 1) as nat) as int, pow2((126 - e) as nat) as int);
        lemma_pow2_pos((e - 1) as nat);
        lemma_pow2_pos((126 - e) as nat);
        lemma_pow2_adds((e - 1) as nat, (126 - e) as nat);
        assert(w == a * b);
        assert(a <= a * b) by (nonlinear_arith)
            requires
                a >= 1,
                b >= 1,
        ;
        assert(m * a < 0x100_0000 * a) by (nonlinear_arith)
            requires
                m < 0x100_0000,
                a >= 1,
        ;
        assert(0 <= m * a) by (nonlinear_arith)
            requires
                0 <= m,
                a >= 1,
        ;
    }
}

proof fn lemma_cut_off(e: int, m: int)
    requires
        127 <= e <= 150,
        0 <= m,
    ensures
        ({
            let q = m / (pow2((150 - e) as nat) as int);
            &&& 0 <= q
            &&& q * pow2(149) <= m * pow2((e - 1) as nat) < (q + 1) * pow2(149)
        }),
{
    let (a, b) = (pow2((e - 1) as nat) as int, pow2((150 - e) as nat) as int);
    lemma_pow2_pos((e - 1) as nat);
    lemma_pow2_pos((150 - e) as nat);
    lemma_pow2_adds((e - 1) as nat, (150 - e) as nat);
    assert(pow2(149) == a * b);
    let (q, rest) = (m / b, m % b);
    lemma_fundamental_div_mod(m, b);
    lemma_mod_bound(m, b);
    assert(q >= 0) by {
        lemma_div_pos_is_pos(m, b);
    }
    assert(m == b * q + rest);
    assert(m * a == (b * q + rest) * a);
    assert((b * q + rest) * a == q * (a * b) + rest * a) by (nonlinear_arith);
    assert(0 <= rest * a) by (nonlinear_arith)
        requires
            0 <= rest,
            a >= 1,
    ;
    assert(rest * a < a * b) by (nonlinear_arith)
        requires
            0 <= rest < b,
            a >= 1,
    ;
    assert((q + 1) * (a * b) == q * (a * b) + a * b) by (nonlinear_arith);
}

proof fn lemma_scaled_up(e: int, m: int)
    requires
        150 < e < 158,
        0 <= m,
    ensures
        ({
            let q = m * pow2((e - 150) as nat);
            &&& 0 <= q
            &&& q * pow2(149) <= m * pow2((e - 1) as nat) < (q + 1) * pow2(149)
        }),
{
    let (a, unit) = (pow2((e - 150) as nat) as int, pow2(149) as int);
    lemma_pow2_pos((e - 150) as nat);
    lemma_pow2_pos(149);
    lemma_pow2_adds((e - 150) as nat, 149);
    assert(pow2((e - 1) as nat) == a * unit);
    assert((m * a) * unit == m * (a * unit)) by (nonlinear_arith);
    assert((m * a + 1) * unit == (m * a) * unit + unit) by (nonlinear_arith);
    assert(0 <= m * a) by (nonlinear_arith)
        requires
            0 <= m,
            a >= 1,
    ;
}

// ---------------------------------------------------------------------- choices

/// All scores are finite numbers.
pub open spec fn are_finite(scores: Seq<u32>) -> bool {
    forall|i: int| 0 <= i < scores.len() ==> (#[trigger] scores[i]) as int % 0x8000_0000 < 0x7f80_0000
}

/// The number of score `i`.
pub open spec fn score_at<S: Scalar>(v: spec_fn(S) -> real, scores: Seq<u32>, i: int) -> real {
    v(S::of_bits_spec(scores[i]))
}

/// The order of the bits is the order of the numbers.
proof fn lemma_order_is_value<S: Scalar>(v: spec_fn(S) -> real, a: u32, b: u32)
    requires
        reads(v),
        a as int % 0x8000_0000 < 0x7f80_0000,
        b as int % 0x8000_0000 < 0x7f80_0000,
    ensures
        order(a) > order(b) <==> v(S::of_bits_spec(a)) > v(S::of_bits_spec(b)),
        order(a) == order(b) <==> v(S::of_bits_spec(a)) == v(S::of_bits_spec(b)),
{
    above_is_greater(v, a, b);
    above_is_greater(v, b, a);
    assert(!is_nan(a) && !is_nan(b));
}

/// No expert that is left out has a greater score than one that is chosen; the chosen are
/// all different and stand from the greatest score down; of equal scores the expert with
/// the lower number comes first.
pub proof fn chosen_experts_have_the_greatest_scores<S: Scalar>(
    v: spec_fn(S) -> real,
    scores: Seq<u32>,
    top: Seq<usize>,
    i: int,
    e: int,
)
    requires
        reads(v),
        are_finite(scores),
        are_first(top, scores),
        0 <= i < top.len(),
        0 <= e < scores.len() <= usize::MAX,
        forall|j: int| 0 <= j <= i ==> #[trigger] top[j] != e,
    ensures
        top[i] < scores.len(),
        score_at(v, scores, top[i] as int) > score_at(v, scores, e) || (score_at(
            v,
            scores,
            top[i] as int,
        ) == score_at(v, scores, e) && top[i] < e),
{
    assert(before(scores, top[i] as int, e)) by {
        if top.contains(e as usize) {
            let j = choose|j: int| 0 <= j < top.len() && top[j] == e as usize;
            assert(j > i);
            assert(before(scores, top[i] as int, top[j] as int));
        }
    }
    assert(scores[top[i] as int] as int % 0x8000_0000 < 0x7f80_0000);
    assert(scores[e] as int % 0x8000_0000 < 0x7f80_0000);
    lemma_order_is_value(v, scores[top[i] as int], scores[e]);
}

/// The token that is chosen without a draw has a score that none is above, and every
/// earlier token has a lower one.
#[verifier::rlimit(40)]
pub proof fn chosen_token_has_the_greatest_score<S: Scalar>(
    v: spec_fn(S) -> real,
    scores: Seq<u32>,
    r: u32,
    i: int,
)
    requires
        reads(v),
        are_finite(scores),
        is_choice(scores, r),
        0 <= i < scores.len() <= 0x1_0000_0000,
    ensures
        r < scores.len(),
        score_at(v, scores, i) <= score_at(v, scores, r as int),
        i < r ==> score_at(v, scores, i) < score_at(v, scores, r as int),
{
    let b = choose|b: u32| #[trigger] is_best(scores, 0, scores.len() as int, (b, r));
    assert(is_best(scores, 0, scores.len() as int, (b, r)));
    assert(scores[i] as int % 0x8000_0000 < 0x7f80_0000);
    assert(scores[r as int] as int % 0x8000_0000 < 0x7f80_0000 || r >= scores.len());
    assert(!is_nan(LEAST) && LEAST as int % 0x8000_0000 < 0x7f80_0000);
    if exists|k: int| 0 <= k < scores.len() && #[trigger] counts(scores, k) {
        assert(counts(scores, r as int));
        if !counts(scores, i) {
            lemma_lowest(scores[i]);
        }
        lemma_order_is_value(v, scores[i], scores[r as int]);
        lemma_order_is_value(v, scores[r as int], scores[i]);
    } else {
        assert(r == 0);
        assert(!counts(scores, i) && !counts(scores, 0));
        lemma_lowest(scores[i]);
        lemma_lowest(scores[0]);
        lemma_order_is_value(v, scores[i], scores[0]);
    }
}

/// The list that a token is drawn from holds as many as are asked for, where there are as
/// many; each entry is a token with its own score, and no token that is left out has a
/// greater score than one that is listed.
pub proof fn listed_tokens_have_the_greatest_scores<S: Scalar>(
    v: spec_fn(S) -> real,
    scores: Seq<u32>,
    k: int,
    a: int,
    i: int,
)
    requires
        reads(v),
        are_finite(scores),
        0 < k,
        scores.len() <= 0x1_0000_0000,
        0 <= a < top_list(scores, k, scores.len() as int).len(),
        0 <= i < scores.len(),
        !listed(top_list(scores, k, scores.len() as int), i),
    ensures
        ({
            let top = top_list(scores, k, scores.len() as int);
            &&& top.len() == if scores.len() < k {
                scores.len() as int
            } else {
                k
            }
            &&& top[a].1 < scores.len() && top[a].0 == scores[top[a].1 as int]
            &&& score_at(v, scores, i) <= score_at(v, scores, top[a].1 as int)
        }),
{
    let top = top_list(scores, k, scores.len() as int);
    assert forall|j: int| 0 <= j < scores.len() implies !is_nan(#[trigger] scores[j]) by {
        assert(scores[j] as int % 0x8000_0000 < 0x7f80_0000);
    }
    assert(numbers(scores));
    top_list_is_best(scores, k, scores.len() as int);
    let e = top[a].1 as int;
    assert(top[a].0 == scores[e]);
    let last = top.len() - 1;
    assert(order(scores[i]) <= order(top.last().0));
    if a < last {
        assert(order(top[a].0) >= order(top[last].0));
    }
    assert(scores[i] as int % 0x8000_0000 < 0x7f80_0000);
    assert(scores[e] as int % 0x8000_0000 < 0x7f80_0000);
    lemma_order_is_value(v, scores[i], scores[e]);
}

/// No finite single is below the lowest.
proof fn lemma_lowest(a: u32)
    requires
        a as int % 0x8000_0000 < 0x7f80_0000,
        !above(a, LEAST),
    ensures
        order(a) == order(LEAST),
{
    assert(!is_nan(a) && !is_nan(LEAST));
    lemma_order(a);
    lemma_order(LEAST);
}

// ---------------------------------------------------------------------- factors

/// A number that stands for so many units of a power of two, in coarser units.
proof fn lemma_coarser(x: real, u: int, a: nat, b: nat)
    requires
        x * (pow2(a + b) as real) == (u * pow2(b)) as real,
    ensures
        x * (pow2(a) as real) == u as real,
{
    lemma_pow2_adds(a, b);
    lemma_pow2_pos(b);
    let (p, q) = (pow2(a) as int, pow2(b) as int);
    assert(pow2(a + b) == p * q);
    let (r, s) = (p as real, q as real);
    assert((p * q) as real == r * s) by (nonlinear_arith)
        requires
            r == p as real,
            s == q as real,
    ;
    assert((u * q) as real == (u as real) * s) by (nonlinear_arith)
        requires
            s == q as real,
    ;
    lemma_group(x, r, s);
    assert(s > 0real);
    lemma_cancel(x * r, u as real, s);
}

/// A finite half keeps its value, which is a multiple of 2^-24, when it is widened.
pub proof fn widened_halves_keep_their_value<S: Scalar>(v: spec_fn(S) -> real, h: u16, bits: u32)
    requires
        reads(v),
        widens(bits, h),
        h as int % 0x8000 < 0x7c00,
    ensures
        v(S::of_bits_spec(bits)) * (pow2(24) as real) == if h < 0x8000 {
            half_magnitude(h) as real
        } else {
            0real - half_magnitude(h) as real
        },
{
    let x = v(S::of_bits_spec(bits));
    let u: int = if h < 0x8000 {
        half_magnitude(h)
    } else {
        -half_magnitude(h)
    };
    assert((h as int / 1024) % 32 < 31);
    let w = pow2(125) as int;
    assert((-half_magnitude(h)) * w == -(half_magnitude(h) * w)) by (nonlinear_arith);
    assert(x * (pow2(24 + 125) as real) == (u * pow2(125)) as real);
    lemma_coarser(x, u, 24, 125);
}

/// A four-bit weight is its value times the power of two of its block: the block of 17 bytes
/// starts with the exponent, and its value is halved, as it is kept doubled. `pow` is the
/// table of the powers.
#[verifier::rlimit(40)]
pub proof fn four_bit_weights_are_scaled_values<S: Scalar>(
    v: spec_fn(S) -> real,
    raw: Seq<u8>,
    blocks: int,
    r: int,
    c: int,
    pow: Seq<S>,
)
    requires
        reads(v),
        adds(v),
        0 <= c,
        pow.len() == 256,
        forall|e: int| 0 <= e < 256 ==> #[trigger] pow[e] == S::of_bits_spec(power_of(e) as u32),
    ensures
        ({
            let at = 17 * (r * blocks + c / 32);
            let byte = raw[at + 1 + c % 16] as int;
            let code = if c % 32 < 16 {
                byte % 16
            } else {
                byte / 16
            };
            v(mx_weight(raw, blocks, r, c, pow)) * (pow2(149) as real) == mx_value(code) as real * (
            pow2((raw[at] + 21) as nat) as real)
        }),
{
    let at = (r * blocks + c / 32) * 17;
    let e = raw[at] as int;
    let p = pow[e];
    let code = mx_code(raw, at + 1, c % 32);
    let w = S::of_int_spec(mx_value(code) as i64);
    powers_are_exact(e);
    let bits = power_of(e) as u32;
    assert(p == S::of_bits_spec(bits));
    assert((bits as int / 0x80_0000) % 256 < 255);
    assert(v(p) * (pow2(149) as real) == pow2((e + 21) as nat) as real);
    assert(-12 <= mx_value(code) <= 12);
    assert(v(w) == mx_value(code) as real);
    assert(mx_weight(raw, blocks, r, c, pow) == w.times_spec(p));
    lemma_group(v(w), v(p), pow2(149) as real);
    assert(17 * (r * blocks + c / 32) == at);
    assert(c % 32 < 16 ==> c % 16 == c % 32);
    assert(c % 32 >= 16 ==> c % 16 == c % 32 - 16);
}

} // verus!
