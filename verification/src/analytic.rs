//! Numbers that can also be divided, compared, rounded and raised: what norms,
//! softmaxes, activations and quantization need.
use crate::arith::{lemma_wrap_small, wrap_i32};
use crate::scalar::{wrapped, Scalar};
use vstd::arithmetic::div_mod::{lemma_fundamental_div_mod, lemma_mod_bound};
use vstd::prelude::*;

verus! {

/// A number with the operations of the steps between the kernels. As in the
/// kernels, each is only asked to be a function of its operands.
pub trait Analytic: Scalar {
    /// The quotient of two numbers.
    spec fn over_spec(self, y: Self) -> Self;

    /// The greater of two numbers.
    spec fn larger_spec(self, y: Self) -> Self;

    /// The lesser of two numbers.
    spec fn smaller_spec(self, y: Self) -> Self;

    /// The number itself between two bounds, and the nearer bound elsewhere.
    spec fn clamped_spec(self, low: Self, high: Self) -> Self;

    /// The number without its sign.
    spec fn magnitude_spec(self) -> Self;

    /// The exponential.
    spec fn exp_spec(self) -> Self;

    /// The square root.
    spec fn root_spec(self) -> Self;

    /// The nearest integer, kept within 127 of zero.
    spec fn level_spec(self) -> i8;

    /// Whether the number is less than or equal to another.
    spec fn at_most_spec(self, y: Self) -> bool;

    fn over(self, y: Self) -> (r: Self)
        ensures
            r == self.over_spec(y),
    ;

    fn larger(self, y: Self) -> (r: Self)
        ensures
            r == self.larger_spec(y),
    ;

    fn smaller(self, y: Self) -> (r: Self)
        ensures
            r == self.smaller_spec(y),
    ;

    fn clamped(self, low: Self, high: Self) -> (r: Self)
        ensures
            r == self.clamped_spec(low, high),
    ;

    fn magnitude(self) -> (r: Self)
        ensures
            r == self.magnitude_spec(),
    ;

    fn exp(self) -> (r: Self)
        ensures
            r == self.exp_spec(),
    ;

    fn root(self) -> (r: Self)
        ensures
            r == self.root_spec(),
    ;

    fn level(self) -> (r: i8)
        ensures
            r == self.level_spec(),
            -127 <= r <= 127,
    ;

    fn at_most(self, y: Self) -> (r: bool)
        ensures
            r == self.at_most_spec(y),
    ;
}

/// The quotient of two integers without its fraction, and zero over zero.
pub open spec fn quotient(a: int, b: int) -> int {
    let size = |n: int|
        if n < 0 {
            -n
        } else {
            n
        };
    if b == 0 {
        0
    } else if (a < 0) == (b < 0) {
        size(a) / size(b)
    } else {
        -(size(a) / size(b))
    }
}

/// The whole part of the exponential of an integer, and the greatest 32-bit number
/// where it is beyond that.
pub open spec fn whole_exp(n: i32) -> i32 {
    if n < 0 {
        0
    } else {
        match n {
            0 => 1,
            1 => 2,
            2 => 7,
            3 => 20,
            4 => 54,
            5 => 148,
            6 => 403,
            7 => 1096,
            8 => 2980,
            9 => 8103,
            10 => 22026,
            11 => 59874,
            12 => 162754,
            13 => 442413,
            14 => 1202604,
            15 => 3269017,
            16 => 8886110,
            17 => 24154952,
            18 => 65659969,
            19 => 178482300,
            20 => 485165195,
            21 => 1318815734,
            _ => 0x7fff_ffff,
        }
    }
}

/// `r` is the whole part of the root of `n`.
pub open spec fn is_root(n: int, r: int) -> bool {
    0 <= r && r * r <= n < (r + 1) * (r + 1)
}

/// The whole part of the root of an integer, and zero where it has none.
pub open spec fn whole_root(n: int) -> int {
    if n < 0 {
        0
    } else {
        choose|r: int| is_root(n, r)
    }
}

proof fn lemma_root_unique(n: int, a: int, b: int)
    requires
        is_root(n, a),
        is_root(n, b),
    ensures
        a == b,
{
    if a < b {
        assert((a + 1) * (a + 1) <= b * b) by (nonlinear_arith)
            requires
                0 <= a < b,
        ;
    } else if b < a {
        assert((b + 1) * (b + 1) <= a * a) by (nonlinear_arith)
            requires
                0 <= b < a,
        ;
    }
}

/// The whole part of the root of an integer, and zero where it has none.
fn integer_root(n: i32) -> (r: i32)
    ensures
        r == whole_root(n as int),
{
    if n < 0 {
        return 0;
    }
    let mut r: i64 = 0;
    let mut next: i64 = 1;
    while next <= n as i64
        invariant
            0 <= r <= 0x7fff_ffff,
            r * r <= n,
            next == (r + 1) * (r + 1),
            n <= 0x7fff_ffff,
        decreases n - r,
    {
        proof {
            assert(r + 1 <= (r + 1) * (r + 1)) by (nonlinear_arith)
                requires
                    0 <= r,
            ;
            assert((r + 2) * (r + 2) == (r + 1) * (r + 1) + 2 * (r + 1) + 1) by (nonlinear_arith);
        }
        r = r + 1;
        next = next + 2 * r + 1;
    }
    proof {
        assert(is_root(n as int, r as int));
        lemma_root_unique(n as int, r as int, whole_root(n as int));
    }
    r as i32
}

/// The quotient of two integers without its fraction, and zero over zero, wrapped.
fn integer_quotient(a: i32, b: i32) -> (r: i32)
    ensures
        r == wrap_i32(quotient(a as int, b as int)),
{
    if b == 0 {
        return 0;
    }
    let x: u64 = if a < 0 {
        (-(a as i64)) as u64
    } else {
        a as u64
    };
    let y: u64 = if b < 0 {
        (-(b as i64)) as u64
    } else {
        b as u64
    };
    let q: u64 = x / y;
    assert(q <= x) by (nonlinear_arith)
        requires
            q == x / y,
            0 < y,
    ;
    if (a < 0) == (b < 0) {
        wrapped(q as i64)
    } else {
        wrapped(-(q as i64))
    }
}

impl Analytic for i32 {
    open spec fn over_spec(self, y: i32) -> i32 {
        wrap_i32(quotient(self as int, y as int)) as i32
    }

    open spec fn larger_spec(self, y: i32) -> i32 {
        if self < y {
            y
        } else {
            self
        }
    }

    open spec fn smaller_spec(self, y: i32) -> i32 {
        if y < self {
            y
        } else {
            self
        }
    }

    open spec fn clamped_spec(self, low: i32, high: i32) -> i32 {
        if self < low {
            low
        } else if self > high {
            high
        } else {
            self
        }
    }

    open spec fn magnitude_spec(self) -> i32 {
        if self < 0 {
            wrap_i32(-self) as i32
        } else {
            self
        }
    }

    open spec fn exp_spec(self) -> i32 {
        whole_exp(self)
    }

    open spec fn root_spec(self) -> i32 {
        whole_root(self as int) as i32
    }

    open spec fn level_spec(self) -> i8 {
        if self < -127 {
            (-127int) as i8
        } else if self > 127 {
            127
        } else {
            self as i8
        }
    }

    open spec fn at_most_spec(self, y: i32) -> bool {
        self <= y
    }

    fn over(self, y: i32) -> (r: i32) {
        integer_quotient(self, y)
    }

    fn larger(self, y: i32) -> (r: i32) {
        if self < y {
            y
        } else {
            self
        }
    }

    fn smaller(self, y: i32) -> (r: i32) {
        if y < self {
            y
        } else {
            self
        }
    }

    fn clamped(self, low: i32, high: i32) -> (r: i32) {
        if self < low {
            low
        } else if self > high {
            high
        } else {
            self
        }
    }

    fn magnitude(self) -> (r: i32) {
        if self < 0 {
            wrapped(-(self as i64))
        } else {
            self
        }
    }

    fn exp(self) -> (r: i32) {
        if self < 0 {
            return 0;
        }
        match self {
            0 => 1,
            1 => 2,
            2 => 7,
            3 => 20,
            4 => 54,
            5 => 148,
            6 => 403,
            7 => 1096,
            8 => 2980,
            9 => 8103,
            10 => 22026,
            11 => 59874,
            12 => 162754,
            13 => 442413,
            14 => 1202604,
            15 => 3269017,
            16 => 8886110,
            17 => 24154952,
            18 => 65659969,
            19 => 178482300,
            20 => 485165195,
            21 => 1318815734,
            _ => 0x7fff_ffff,
        }
    }

    fn root(self) -> (r: i32) {
        integer_root(self)
    }

    fn level(self) -> (r: i8) {
        if self < -127 {
            -127
        } else if self > 127 {
            127
        } else {
            self as i8
        }
    }

    fn at_most(self, y: i32) -> (r: bool) {
        self <= y
    }
}

// ------------------------------------------------------- whole numbers, once more

/// A quotient without its fraction times the divisor is the dividend but for a rest, which
/// is nearer to zero than the divisor and lies on the dividend's side.
pub proof fn quotients_leave_a_small_rest(a: int, b: int)
    requires
        b != 0,
    ensures
        ({
            let rest = a - quotient(a, b) * b;
            &&& -(if b < 0 {
                -b
            } else {
                b
            }) < rest < if b < 0 {
                -b
            } else {
                b
            }
            &&& a >= 0 ==> rest >= 0
            &&& a <= 0 ==> rest <= 0
        }),
{
    let (x, y) = (
        if a < 0 {
            -a
        } else {
            a
        },
        if b < 0 {
            -b
        } else {
            b
        },
    );
    lemma_fundamental_div_mod(x, y);
    lemma_mod_bound(x, y);
    let q = x / y;
    assert(y * q == q * y) by (nonlinear_arith);
    assert((-q) * (-y) == q * y && (-q) * y == -(q * y) && q * (-y) == -(q * y))
        by (nonlinear_arith);
    assert(quotient(a, b) == if (a < 0) == (b < 0) {
        q
    } else {
        -q
    });
}

/// From each integer to the next the exponential grows by the factor e, which lies between
/// 2.718281 and 2.718282; only the fractions are lost.
pub proof fn exponentials_grow_by_their_base(n: i32)
    requires
        0 <= n < 21,
    ensures
        whole_exp(0) == 1,
        2718281 * whole_exp(n) < 1000000 * (whole_exp((n + 1) as i32) + 1),
        1000000 * whole_exp((n + 1) as i32) < 2718282 * (whole_exp(n) + 1),
{
}

/// Integers are compared as they are: of two the larger is above both and one of them, the
/// smaller below both and one of them, and a clamped one lies between its bounds and is
/// itself where it did so before.
pub proof fn integers_are_compared_as_they_are(a: i32, b: i32, c: i32)
    ensures
        a.larger_spec(b) >= a && a.larger_spec(b) >= b,
        a.larger_spec(b) == a || a.larger_spec(b) == b,
        a.smaller_spec(b) <= a && a.smaller_spec(b) <= b,
        a.smaller_spec(b) == a || a.smaller_spec(b) == b,
        b <= c ==> b <= a.clamped_spec(b, c) <= c,
        b <= a <= c ==> a.clamped_spec(b, c) == a,
        a < b <= c ==> a.clamped_spec(b, c) == b,
        b <= c < a ==> a.clamped_spec(b, c) == c,
        a.at_most_spec(b) <==> a <= b,
        a > i32::MIN ==> a.magnitude_spec() >= 0 && (a.magnitude_spec() == a || a.magnitude_spec()
            == -a),
{
    if i32::MIN < a < 0 {
        lemma_wrap_small(-a);
    }
}

/// An integer within 127 of zero is its own level, and any other has the nearest of those.
pub proof fn integers_are_their_levels(a: i32)
    ensures
        -127 <= a <= 127 ==> a.level_spec() == a,
        a > 127 ==> a.level_spec() == 127,
        a < -127 ==> a.level_spec() == -127,
{
}

/// An integer that is not negative has a root without its fraction, which is what is taken.
pub proof fn whole_roots_are_roots(n: int)
    requires
        0 <= n,
    ensures
        is_root(n, whole_root(n)),
{
    let r = lemma_root_exists(n);
    assert(is_root(n, r));
}

proof fn lemma_root_exists(n: int) -> (r: int)
    requires
        0 <= n,
    ensures
        is_root(n, r),
    decreases n,
{
    if n == 0 {
        assert(is_root(0, 0)) by (nonlinear_arith);
        0
    } else {
        let r = lemma_root_exists(n - 1);
        let s = r + 1;
        if s * s <= n {
            assert((s + 1) * (s + 1) == s * s + 2 * s + 1) by (nonlinear_arith);
            assert(is_root(n, s));
            s
        } else {
            r
        }
    }
}

} // verus!
