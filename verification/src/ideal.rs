//! Numbers that stand for reals and round nothing: what the operations on them are
//! held to where a law speaks of exact values.
use crate::algebra::{lemma_simple, lemma_spread};
use crate::analytic::Analytic;
use crate::half::single_magnitude;
use crate::scalar::Scalar;
use vstd::arithmetic::power2::pow2;
use vstd::prelude::*;

verus! {

// ------------------------------------------------------------------- operations

/// Sums, differences and products are those of the reals, and an integer is itself.
pub open spec fn adds<S: Scalar>(v: spec_fn(S) -> real) -> bool {
    &&& v(S::zero_spec()) == 0real
    &&& forall|n: i64| v(#[trigger] S::of_int_spec(n)) == n as real
    &&& forall|a: S, b: S| v(#[trigger] a.plus_spec(b)) == v(a) + v(b)
    &&& forall|a: S, b: S| v(#[trigger] a.minus_spec(b)) == v(a) - v(b)
    &&& forall|a: S, b: S| v(#[trigger] a.times_spec(b)) == v(a) * v(b)
    &&& forall|c: S, a: S, b: S| v(#[trigger] c.mul_plus_spec(a, b)) == v(c) + v(a) * v(b)
    &&& forall|c: S, a: S, b: S| v(#[trigger] c.fma_spec(a, b)) == v(c) + v(a) * v(b)
}

/// A quotient times its divisor is the dividend.
pub open spec fn divides<S: Analytic>(v: spec_fn(S) -> real) -> bool {
    forall|a: S, b: S| v(b) != 0real ==> v(#[trigger] a.over_spec(b)) * v(b) == v(a)
}

/// Numbers are ordered as the reals are.
pub open spec fn orders<S: Analytic>(v: spec_fn(S) -> real) -> bool {
    &&& forall|a: S, b: S|
        v(#[trigger] a.larger_spec(b)) == if v(a) < v(b) {
            v(b)
        } else {
            v(a)
        }
    &&& forall|a: S, b: S|
        v(#[trigger] a.smaller_spec(b)) == if v(a) < v(b) {
            v(a)
        } else {
            v(b)
        }
    &&& forall|a: S, low: S, high: S|
        v(low) <= v(high) ==> v(#[trigger] a.clamped_spec(low, high)) == if v(a) < v(low) {
            v(low)
        } else if v(a) > v(high) {
            v(high)
        } else {
            v(a)
        }
    &&& forall|a: S|
        v(#[trigger] a.magnitude_spec()) == if v(a) < 0real {
            0real - v(a)
        } else {
            v(a)
        }
    &&& forall|a: S, b: S| #[trigger] a.at_most_spec(b) <==> v(a) <= v(b)
}

/// The root of a number that is not negative is not negative, and its square is the
/// number.
pub open spec fn takes_roots<S: Analytic>(v: spec_fn(S) -> real) -> bool {
    forall|a: S|
        v(a) >= 0real ==> v(#[trigger] a.root_spec()) >= 0real && v(a.root_spec()) * v(
            a.root_spec(),
        ) == v(a)
}

/// Exponentials are positive and grow, and that of a difference is the quotient of
/// the two.
pub open spec fn raises<S: Analytic>(v: spec_fn(S) -> real) -> bool {
    &&& forall|a: S| v(#[trigger] a.exp_spec()) > 0real
    &&& forall|a: S, b: S|
        v(a) < v(b) ==> v(#[trigger] a.exp_spec()) < v(#[trigger] b.exp_spec())
    &&& forall|a: S, b: S|
        v(a) == v(b) ==> v(#[trigger] a.exp_spec()) == v(#[trigger] b.exp_spec())
    &&& forall|a: S, b: S|
        v(#[trigger] a.minus_spec(b).exp_spec()) * v(b.exp_spec()) == v(a.exp_spec())
}

/// The level of a number is a nearest integer, among those within 127 of zero.
pub open spec fn levels<S: Analytic>(v: spec_fn(S) -> real) -> bool {
    forall|a: S|
        ({
            let q = #[trigger] a.level_spec();
            &&& -127 <= q <= 127
            &&& v(a) > 127real ==> q == 127
            &&& v(a) < -127real ==> q == -127
            &&& -127real <= v(a) <= 127real ==> -1real <= 2real * (q as real - v(a)) <= 1real
        })
}

/// The bits of a finite single-precision number stand for its value, which is a
/// multiple of 2^-149.
pub open spec fn reads<S: Scalar>(v: spec_fn(S) -> real) -> bool {
    forall|bits: u32|
        (bits as int / 0x80_0000) % 256 < 255 ==> v(#[trigger] S::of_bits_spec(bits)) * (pow2(
            149,
        ) as real) == (if bits < 0x8000_0000 {
            single_magnitude(bits) as real
        } else {
            0real - single_magnitude(bits) as real
        })
}

/// The numbers stand for the reals that `v` gives, and no operation rounds.
pub open spec fn is_ideal<S: Analytic>(v: spec_fn(S) -> real) -> bool {
    &&& adds(v)
    &&& divides(v)
    &&& orders(v)
    &&& takes_roots(v)
    &&& raises(v)
    &&& levels(v)
    &&& reads(v)
}

// ------------------------------------------------------------------------- sums

/// The sum of `f(0)` to `f(n - 1)`.
pub open spec fn series(n: int, f: spec_fn(int) -> real) -> real
    decreases n,
{
    if n <= 0 {
        0real
    } else {
        series(n - 1, f) + f(n - 1)
    }
}

/// Sums of the same terms are the same.
pub proof fn lemma_series_same(n: int, f: spec_fn(int) -> real, g: spec_fn(int) -> real)
    requires
        forall|j: int| 0 <= j < n ==> #[trigger] f(j) == g(j),
    ensures
        series(n, f) == series(n, g),
    decreases n,
{
    if n > 0 {
        lemma_series_same(n - 1, f, g);
        assert(f(n - 1) == g(n - 1));
    }
}

/// A common factor of all terms is one of their sum.
pub proof fn lemma_series_factor(
    n: int,
    f: spec_fn(int) -> real,
    g: spec_fn(int) -> real,
    c: real,
)
    requires
        forall|j: int| 0 <= j < n ==> #[trigger] f(j) == g(j) * c,
    ensures
        series(n, f) == series(n, g) * c,
    decreases n,
{
    if n > 0 {
        lemma_series_factor(n - 1, f, g, c);
        assert(f(n - 1) == g(n - 1) * c);
        lemma_spread(series(n - 1, g), g(n - 1), c);
    } else {
        lemma_simple(c);
    }
}

/// A sum of positive terms is positive, and no term is above it.
pub proof fn lemma_series_positive(n: int, f: spec_fn(int) -> real)
    requires
        forall|j: int| 0 <= j < n ==> #[trigger] f(j) > 0real,
    ensures
        series(n, f) >= 0real,
        n > 0 ==> series(n, f) > 0real,
        forall|j: int| 0 <= j < n ==> #[trigger] f(j) <= series(n, f),
    decreases n,
{
    if n > 0 {
        lemma_series_positive(n - 1, f);
        assert(f(n - 1) > 0real);
    }
}

/// A sum of terms that are not negative is not negative.
pub proof fn lemma_series_not_negative(n: int, f: spec_fn(int) -> real)
    requires
        forall|j: int| 0 <= j < n ==> #[trigger] f(j) >= 0real,
    ensures
        series(n, f) >= 0real,
    decreases n,
{
    if n > 0 {
        lemma_series_not_negative(n - 1, f);
        assert(f(n - 1) >= 0real);
    }
}

/// The same term `n` times.
pub proof fn lemma_series_constant(n: int, f: spec_fn(int) -> real, c: real)
    requires
        0 <= n,
        forall|j: int| 0 <= j < n ==> #[trigger] f(j) == c,
    ensures
        series(n, f) == n as real * c,
    decreases n,
{
    if n > 0 {
        lemma_series_constant(n - 1, f, c);
        assert(f(n - 1) == c);
        let m: int = n - 1;
        assert(m as real + 1real == n as real);
        lemma_spread(m as real, 1real, c);
        lemma_simple(c);
    } else {
        lemma_simple(c);
    }
}

} // verus!
