//! Half-precision and brain-float numbers widened to single precision, on their
//! bit patterns. Magnitudes are scaled to integers: a finite half is a multiple
//! of 2^-24 and a finite single a multiple of 2^-149.
use crate::bits::u16_le;
use vstd::arithmetic::power2::{lemma2_to64, lemma_pow2_adds, lemma_pow2_unfold, pow2};
use vstd::prelude::*;

verus! {

/// The magnitude of a finite half, in units of 2^-24.
pub open spec fn half_magnitude(h: u16) -> int {
    let e = (h as int / 1024) % 32;
    let m = h as int % 1024;
    if e == 0 {
        m
    } else {
        (1024 + m) * pow2((e - 1) as nat)
    }
}

/// The magnitude of a finite single, in units of 2^-149.
pub open spec fn single_magnitude(bits: u32) -> int {
    let e = (bits as int / 0x80_0000) % 256;
    let m = bits as int % 0x80_0000;
    if e == 0 {
        m
    } else {
        (0x80_0000 + m) * pow2((e - 1) as nat)
    }
}

/// The single with these bits is the half `h`: the same sign, and the same
/// finite value, or infinity for infinity and the same payload for a NaN.
pub open spec fn widens(bits: u32, h: u16) -> bool {
    &&& bits as int / 0x8000_0000 == h as int / 0x8000
    &&& if (h as int / 1024) % 32 == 31 {
        &&& (bits as int / 0x80_0000) % 256 == 255
        &&& bits as int % 0x80_0000 == (h as int % 1024) * 8192
    } else {
        &&& (bits as int / 0x80_0000) % 256 < 255
        &&& single_magnitude(bits) == half_magnitude(h) * pow2(125)
    }
}

/// No two singles are the same half.
pub proof fn lemma_widens_unique(a: u32, b: u32, h: u16)
    requires
        widens(a, h),
        widens(b, h),
    ensures
        a == b,
{
    let (ea, ma) = ((a as int / 0x80_0000) % 256, a as int % 0x80_0000);
    let (eb, mb) = ((b as int / 0x80_0000) % 256, b as int % 0x80_0000);
    if (h as int / 1024) % 32 != 31 {
        lemma_magnitude_unique(ea, ma, eb, mb);
    }
}

proof fn lemma_magnitude_unique(ea: int, ma: int, eb: int, mb: int)
    requires
        0 <= ea < 255,
        0 <= eb < 255,
        0 <= ma < 0x80_0000,
        0 <= mb < 0x80_0000,
        (if ea == 0 {
            ma
        } else {
            (0x80_0000 + ma) * pow2((ea - 1) as nat)
        }) == (if eb == 0 {
            mb
        } else {
            (0x80_0000 + mb) * pow2((eb - 1) as nat)
        }),
    ensures
        ea == eb && ma == mb,
    decreases (if ea > eb { 1int } else { 0 }),
{
    if ea > eb {
        lemma_magnitude_unique(eb, mb, ea, ma);
    } else if ea == eb {
        if ea > 0 {
            let p = pow2((ea - 1) as nat) as int;
            vstd::arithmetic::power2::lemma_pow2_pos((ea - 1) as nat);
            assert(ma == mb) by (nonlinear_arith)
                requires
                    (0x80_0000 + ma) * p == (0x80_0000 + mb) * p,
                    p > 0,
            ;
        }
    } else {
        lemma2_to64();
        let q = pow2((eb - 1) as nat) as int;
        vstd::arithmetic::power2::lemma_pow2_pos((eb - 1) as nat);
        if ea == 0 {
            assert((0x80_0000 + mb) * q >= 0x80_0000) by (nonlinear_arith)
                requires
                    mb >= 0,
                    q >= 1,
            ;
        } else {
            let p = pow2((ea - 1) as nat) as int;
            vstd::arithmetic::power2::lemma_pow2_pos((ea - 1) as nat);
            let r = pow2((eb - ea) as nat) as int;
            lemma_pow2_adds((ea - 1) as nat, (eb - ea) as nat);
            lemma_pow2_unfold((eb - ea) as nat);
            vstd::arithmetic::power2::lemma_pow2_pos((eb - ea - 1) as nat);
            assert((0x80_0000 + mb) * q > (0x80_0000 + ma) * p) by (nonlinear_arith)
                requires
                    q == p * r,
                    r >= 2,
                    p >= 1,
                    0 <= ma < 0x80_0000,
                    mb >= 0,
            ;
        }
    }
}

proof fn lemma_assemble(s: u32, e: u32, m: u32)
    by (bit_vector)
    requires
        s < 2,
        e < 256,
        m < 0x400,
    ensures
        (s << 31) | (e << 23) | (m << 13) == 0x8000_0000 * s + 0x80_0000 * e + 8192 * m,
{
}

/// The bits of the single that widens the half `h`.
pub open spec fn half_bits(h: u16) -> u32 {
    choose|bits: u32| widens(bits, h)
}

/// The half with bits `h`, as the bits of a single.
pub fn half_to_f32_bits(h: u16) -> (bits: u32)
    ensures
        widens(bits, h),
        bits == half_bits(h),
{
    let bits: u32 = widened(h);
    proof {
        lemma_widens_unique(bits, half_bits(h), h);
    }
    bits
}

/// The sign, exponent and mantissa of the half, put together as those of a single.
fn widened(h: u16) -> (bits: u32)
    ensures
        widens(bits, h),
{
    let (s, e, m): (u32, u32, u32) = (
        (h >> 15) as u32 & 1,
        (h >> 10) as u32 & 0x1f,
        (h & 0x3ff) as u32,
    );
    assert((h >> 15) as u32 & 1 == h / 0x8000 && (h >> 10) as u32 & 0x1f == (h / 1024) % 32 && (h
        & 0x3ff) as u32 == h % 1024) by (bit_vector);
    if e == 0 {
        if m == 0 {
            proof {
                lemma_assemble(s, 0, 0);
                assert((s << 31) | (0u32 << 23) | (0u32 << 13) == s << 31) by (bit_vector);
                assert(0 * pow2(125) == 0) by (nonlinear_arith);
            }
            s << 31
        } else {
            let mut k: u32 = 1;
            let mut mm: u32 = 2 * m;
            proof {
                lemma2_to64();
            }
            while mm & 0x400 == 0
                invariant
                    1 <= k <= 10,
                    0 < m < 1024,
                    mm == m * pow2(k as nat),
                    mm < 2048,
                decreases 10 - k,
            {
                assert(mm < 2048 && mm & 0x400 == 0 ==> mm < 1024) by (bit_vector);
                proof {
                    lemma_pow2_unfold((k + 1) as nat);
                    assert(m * (2 * pow2(k as nat)) == 2 * (m * pow2(k as nat))) by (nonlinear_arith);
                    lemma2_to64();
                    assert(k == 10 ==> m * 1024 == mm);
                }
                mm = 2 * mm;
                k = k + 1;
            }
            let (e2, m2): (u32, u32) = (113 - k, mm & 0x3ff);
            proof {
                assert(mm < 2048 && mm & 0x400 != 0 ==> mm >= 1024 && mm & 0x3ff == mm - 1024)
                    by (bit_vector);
                lemma_assemble(s, e2, m2);
                lemma_normal(s as int, e2 as int, m2 as int);
                lemma_pow2_adds(k as nat, (125 - k) as nat);
                lemma_pow2_adds((112 - k) as nat, 13);
                lemma2_to64();
                let (p, q) = (pow2(k as nat) as int, pow2((125 - k) as nat) as int);
                assert((m * p) * q == m * (p * q)) by (nonlinear_arith);
            }
            (s << 31) | (e2 << 23) | (m2 << 13)
        }
    } else if e == 0x1f {
        proof {
            lemma_assemble(s, 0xff, m);
        }
        (s << 31) | (0xff << 23) | (m << 13)
    } else {
        proof {
            lemma_assemble(s, (e + 112) as u32, m);
            lemma_normal(s as int, e + 112, m as int);
            lemma_pow2_adds((e - 1) as nat, 125);
            lemma_pow2_adds((e + 111) as nat, 13);
            assert((e - 1) as nat + 125nat == (e + 111) as nat + 13nat);
            let (p, q) = (pow2((e - 1) as nat) as int, pow2(125) as int);
            assert((1024 + m) * p * q == (1024 + m) * (p * q)) by (nonlinear_arith);
        }
        (s << 31) | ((e + 112) << 23) | (m << 13)
    }
}

/// A normal single with the top ten mantissa bits `m` and the rest zero.
proof fn lemma_normal(s: int, e: int, m: int)
    requires
        0 <= s < 2,
        0 < e < 255,
        0 <= m < 1024,
    ensures
        ({
            let bits = (0x8000_0000 * s + 0x80_0000 * e + 8192 * m) as u32;
            &&& bits as int / 0x8000_0000 == s
            &&& (bits as int / 0x80_0000) % 256 == e
            &&& single_magnitude(bits) == (1024 + m) * (pow2((e - 1) as nat) * pow2(13))
        }),
{
    lemma2_to64();
    let p = pow2((e - 1) as nat) as int;
    assert((0x80_0000 + 8192 * m) * p == (1024 + m) * (p * 8192)) by (nonlinear_arith);
}

/// A brain float keeps the upper half of a single's bits.
pub fn bf16_to_f32_bits(b: u16) -> (bits: u32)
    ensures
        bits == 0x1_0000 * b,
{
    let w: u32 = b as u32;
    assert(w < 0x1_0000 ==> w << 16 == 0x1_0000 * w) by (bit_vector);
    w << 16
}

/// The half stored in two bytes, least significant first.
pub open spec fn half_at(b: Seq<u8>, i: int) -> u16 {
    (b[i] + 256 * b[i + 1]) as u16
}

/// Reads the half at byte `i` and widens it.
pub fn read_half(b: &[u8], i: usize) -> (bits: u32)
    requires
        i + 1 < b.len(),
    ensures
        widens(bits, half_at(b@, i as int)),
        bits == half_bits(half_at(b@, i as int)),
{
    half_to_f32_bits(u16_le(b[i], b[i + 1]))
}

} // verus!
