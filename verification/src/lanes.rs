//! Four running sums side by side. A block of products is cut into quarters of
//! four; lane `l` gets every fourth quarter from quarter `l` on, and the lanes are
//! added in pairs at the end.
use crate::arith::sum;
use crate::scalar::Scalar;
use vstd::prelude::*;

verus! {

/// The four products of quarter `i`.
#[verifier::opaque]
pub open spec fn quarter(f: spec_fn(int) -> int, i: int) -> int {
    f(4 * i) + f(4 * i + 1) + f(4 * i + 2) + f(4 * i + 3)
}

/// What lane `l` gets of a block of 32 products.
pub open spec fn lane(f: spec_fn(int) -> int, l: int) -> int {
    quarter(f, l) + quarter(f, l + 4)
}

/// The quarters of sixteen products add up to their sum.
pub proof fn quarters_add_up(f: spec_fn(int) -> int)
    ensures
        quarter(f, 0) + quarter(f, 1) + quarter(f, 2) + quarter(f, 3) == sum(16, f),
{
    reveal(quarter);
    reveal_with_fuel(sum, 17);
}

/// The lanes of a block of 32 products add up to their sum: cutting the block into
/// lanes loses nothing and counts nothing twice.
pub proof fn lanes_add_up(f: spec_fn(int) -> int)
    ensures
        lane(f, 0) + lane(f, 1) + lane(f, 2) + lane(f, 3) == sum(32, f),
{
    quarters_add_up(f);
    assert(sum(32, f) == sum(16, f) + quarter(f, 4) + quarter(f, 5) + quarter(f, 6) + quarter(
        f,
        7,
    )) by {
        reveal(quarter);
        reveal_with_fuel(sum, 17);
    }
}

/// How the blocks of a row are added up: one after another in a single chain of
/// running sums, or the even and the odd ones in a chain each, added at the end.
#[derive(Clone, Copy, PartialEq, Eq, Structural, Debug)]
pub enum Chain {
    Single,
    Split,
}

/// Four running sums.
pub struct Lanes<S> {
    pub a: S,
    pub b: S,
    pub c: S,
    pub d: S,
}

/// Four numbers added in pairs.
pub open spec fn paired<S: Scalar>(a: S, b: S, c: S, d: S) -> S {
    a.plus_spec(b).plus_spec(c.plus_spec(d))
}

/// A number plus an integer times a scale, in one step.
pub open spec fn scaled<S: Scalar>(acc: S, dot: int, scale: S) -> S {
    acc.fma_spec(S::of_int_spec(dot as i64), scale)
}

impl<S: Scalar> Lanes<S> {
    /// Four zeros.
    pub fn zero() -> (r: Lanes<S>)
        ensures
            r.a == S::zero_spec(),
            r.b == S::zero_spec(),
            r.c == S::zero_spec(),
            r.d == S::zero_spec(),
    {
        Lanes { a: S::zero(), b: S::zero(), c: S::zero(), d: S::zero() }
    }

    /// Each lane plus its integer times the scale.
    pub fn grow(&self, dots: (i32, i32, i32, i32), scale: S) -> (r: Lanes<S>)
        ensures
            r.a == scaled(self.a, dots.0 as int, scale),
            r.b == scaled(self.b, dots.1 as int, scale),
            r.c == scaled(self.c, dots.2 as int, scale),
            r.d == scaled(self.d, dots.3 as int, scale),
    {
        Lanes {
            a: self.a.fma(S::of_int(dots.0 as i64), scale),
            b: self.b.fma(S::of_int(dots.1 as i64), scale),
            c: self.c.fma(S::of_int(dots.2 as i64), scale),
            d: self.d.fma(S::of_int(dots.3 as i64), scale),
        }
    }

    /// Each lane plus the lane of others.
    pub fn with(&self, other: &Lanes<S>) -> (r: Lanes<S>)
        ensures
            r.a == self.a.plus_spec(other.a),
            r.b == self.b.plus_spec(other.b),
            r.c == self.c.plus_spec(other.c),
            r.d == self.d.plus_spec(other.d),
    {
        Lanes {
            a: self.a.plus(other.a),
            b: self.b.plus(other.b),
            c: self.c.plus(other.c),
            d: self.d.plus(other.d),
        }
    }

    /// The lanes added in pairs.
    pub fn total(&self) -> (r: S)
        ensures
            r == paired(self.a, self.b, self.c, self.d),
    {
        self.a.plus(self.b).plus(self.c.plus(self.d))
    }
}

} // verus!
