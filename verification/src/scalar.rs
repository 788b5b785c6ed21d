//! The numbers that the dense matrix kernels work on, with the operations in the
//! order in which the kernels apply them.
use crate::arith::{lemma_wrap_plus, wrap_i32};
use vstd::arithmetic::div_mod::lemma_div_is_ordered_by_denominator;
use vstd::arithmetic::power2::{lemma2_to64, lemma_pow2_pos, pow2};
use vstd::bits::{lemma_u32_shl_is_mul, lemma_u32_shr_is_div};
use vstd::prelude::*;

verus! {

/// A number with the operations of the dense kernels. Nothing is asked of them
/// but that each is a function of its operands: rounding is allowed.
pub trait Scalar: Copy {
    /// Zero.
    spec fn zero_spec() -> Self;

    /// An integer as a number.
    spec fn of_int_spec(n: i64) -> Self;

    /// The number whose single-precision encoding has these bits.
    spec fn of_bits_spec(bits: u32) -> Self;

    /// The sum of two numbers.
    spec fn plus_spec(self, y: Self) -> Self;

    /// The difference of two numbers.
    spec fn minus_spec(self, y: Self) -> Self;

    /// The product of two numbers.
    spec fn times_spec(self, y: Self) -> Self;

    /// `self` plus the product of `a` and `b`, the product rounded first.
    spec fn mul_plus_spec(self, a: Self, b: Self) -> Self;

    /// `self` plus the product of `a` and `b`, in one step.
    spec fn fma_spec(self, a: Self, b: Self) -> Self;

    fn zero() -> (r: Self)
        ensures
            r == Self::zero_spec(),
    ;

    fn of_int(n: i64) -> (r: Self)
        ensures
            r == Self::of_int_spec(n),
    ;

    fn of_bits(bits: u32) -> (r: Self)
        ensures
            r == Self::of_bits_spec(bits),
    ;

    fn plus(self, y: Self) -> (r: Self)
        ensures
            r == self.plus_spec(y),
    ;

    fn minus(self, y: Self) -> (r: Self)
        ensures
            r == self.minus_spec(y),
    ;

    fn times(self, y: Self) -> (r: Self)
        ensures
            r == self.times_spec(y),
    ;

    fn mul_plus(self, a: Self, b: Self) -> (r: Self)
        ensures
            r == self.mul_plus_spec(a, b),
    ;

    fn fma(self, a: Self, b: Self) -> (r: Self)
        ensures
            r == self.fma_spec(a, b),
    ;
}

/// A 64-bit number, wrapped to 32 bits.
pub fn wrapped(n: i64) -> (r: i32)
    ensures
        r == wrap_i32(n as int),
{
    let shifted: u128 = (n as i128 + 0x8000_0000_8000_0000) as u128;
    let low: u128 = shifted % 0x1_0000_0000;
    proof {
        crate::arith::lemma_wrap_multiple(n as int, 0x8000_0000);
    }
    (low as i64 - 0x8000_0000) as i32
}

/// The product of two 32-bit numbers, wrapped.
pub fn wrapped_product(a: i32, b: i32) -> (r: i32)
    ensures
        r == wrap_i32(a * b),
{
    proof {
        assert(-0x4000_0000_0000_0000 <= a * b <= 0x4000_0000_0000_0000) by (nonlinear_arith)
            requires
                -0x8000_0000 <= a <= 0x7fff_ffff,
                -0x8000_0000 <= b <= 0x7fff_ffff,
        ;
    }
    wrapped(a as i64 * b as i64)
}

/// The whole part of a number given by its single-precision encoding, no further
/// from zero than a 32-bit number reaches.
pub open spec fn whole_of_bits(bits: u32) -> int {
    let e = (bits as int / 0x80_0000) % 256;
    let m = 0x80_0000 + bits as int % 0x80_0000;
    let size = if e < 127 {
        0
    } else if e <= 150 {
        m / pow2((150 - e) as nat) as int
    } else if e < 158 {
        m * pow2((e - 150) as nat)
    } else {
        0x7fff_ffff
    };
    if bits < 0x8000_0000 {
        size
    } else {
        -size
    }
}

/// The whole part of a number given by its single-precision encoding.
fn truncated(bits: u32) -> (r: i32)
    ensures
        r == whole_of_bits(bits),
{
    let e: u32 = (bits / 0x80_0000) % 256;
    let m: u32 = 0x80_0000 + bits % 0x80_0000;
    let size: u32 = if e < 127 {
        0
    } else if e <= 150 {
        proof {
            lemma_u32_shr_is_div(m, (150 - e) as u32);
        }
        m >> (150 - e)
    } else if e < 158 {
        proof {
            lemma2_to64();
            lemma_pow2_up_to_seven((e - 150) as nat);
            assert(m * pow2((e - 150) as nat) <= 0xff_ffff * 128) by (nonlinear_arith)
                requires
                    m <= 0xff_ffff,
                    0 <= pow2((e - 150) as nat) <= 128,
            ;
            lemma_u32_shl_is_mul(m, (e - 150) as u32);
        }
        m << (e - 150)
    } else {
        0x7fff_ffff
    };
    proof {
        if 127 <= e <= 150 {
            lemma_pow2_pos((150 - e) as nat);
            lemma_div_is_ordered_by_denominator(m as int, 1, pow2((150 - e) as nat) as int);
        }
    }
    if bits < 0x8000_0000 {
        size as i32
    } else {
        -(size as i32)
    }
}

proof fn lemma_pow2_up_to_seven(n: nat)
    requires
        n <= 7,
    ensures
        0 < pow2(n) <= 128,
{
    lemma2_to64();
}

impl Scalar for i32 {
    open spec fn zero_spec() -> i32 {
        0
    }

    open spec fn of_int_spec(n: i64) -> i32 {
        wrap_i32(n as int) as i32
    }

    open spec fn of_bits_spec(bits: u32) -> i32 {
        whole_of_bits(bits) as i32
    }

    open spec fn plus_spec(self, y: i32) -> i32 {
        wrap_i32(self + y) as i32
    }

    open spec fn minus_spec(self, y: i32) -> i32 {
        wrap_i32(self - y) as i32
    }

    open spec fn times_spec(self, y: i32) -> i32 {
        wrap_i32(self * y) as i32
    }

    open spec fn mul_plus_spec(self, a: i32, b: i32) -> i32 {
        wrap_i32(self + a * b) as i32
    }

    open spec fn fma_spec(self, a: i32, b: i32) -> i32 {
        wrap_i32(self + a * b) as i32
    }

    fn zero() -> (r: i32) {
        0
    }

    fn of_int(n: i64) -> (r: i32) {
        wrapped(n)
    }

    fn of_bits(bits: u32) -> (r: i32) {
        truncated(bits)
    }

    fn plus(self, y: i32) -> (r: i32) {
        self.wrapping_add(y)
    }

    fn minus(self, y: i32) -> (r: i32) {
        self.wrapping_sub(y)
    }

    fn times(self, y: i32) -> (r: i32) {
        wrapped_product(self, y)
    }

    fn mul_plus(self, a: i32, b: i32) -> (r: i32) {
        proof {
            lemma_wrap_plus(self as int, a * b);
        }
        self.wrapping_add(wrapped_product(a, b))
    }

    fn fma(self, a: i32, b: i32) -> (r: i32) {
        proof {
            lemma_wrap_plus(self as int, a * b);
        }
        self.wrapping_add(wrapped_product(a, b))
    }
}

} // verus!
