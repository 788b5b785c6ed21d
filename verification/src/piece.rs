//! What a work item writes: the new contents of its runs of places, in the order
//! of the runs.
use vstd::prelude::*;

verus! {

/// The new contents of a run of places.
pub enum Piece<S> {
    Reals(Vec<S>),
    Levels(Vec<i8>),
    Sums(Vec<i32>),
}

/// What a place holds.
pub enum Cell<S> {
    Real(S),
    Level(i8),
    Sum(i32),
    /// The best token of a run, with its score.
    Word(u64),
}

impl<S> Piece<S> {
    /// The new content of place `i` of the run.
    pub open spec fn cell(&self, i: int) -> Cell<S> {
        match self {
            Piece::Reals(v) => Cell::Real(v@[i]),
            Piece::Levels(v) => Cell::Level(v@[i]),
            Piece::Sums(v) => Cell::Sum(v@[i]),
        }
    }

    /// The number of places.
    pub open spec fn places(&self) -> int {
        match self {
            Piece::Reals(v) => v@.len() as int,
            Piece::Levels(v) => v@.len() as int,
            Piece::Sums(v) => v@.len() as int,
        }
    }

    /// The contents are these numbers.
    pub open spec fn holds_reals(&self, s: Seq<S>) -> bool {
        self matches Piece::Reals(v) && v@ == s
    }

    /// The contents are these levels.
    pub open spec fn holds_levels(&self, s: Seq<i8>) -> bool {
        self matches Piece::Levels(v) && v@ == s
    }

    /// The contents are these sums.
    pub open spec fn holds_sums(&self, s: Seq<i32>) -> bool {
        self matches Piece::Sums(v) && v@ == s
    }
}

/// One run of numbers.
pub open spec fn only_reals<S>(out: Seq<Piece<S>>, s: Seq<S>) -> bool {
    out.len() == 1 && out[0].holds_reals(s)
}

/// One number.
pub fn one_real<S: Copy>(v: S) -> (r: Vec<Piece<S>>)
    ensures
        only_reals(r@, seq![v]),
{
    let x: Vec<S> = vec![v];
    assert(x@ =~= seq![v]);
    vec![Piece::Reals(x)]
}

/// Four numbers.
pub fn four_reals<S: Copy>(v: [S; 4]) -> (r: Vec<Piece<S>>)
    ensures
        only_reals(r@, v@),
{
    let x: Vec<S> = vec![v[0], v[1], v[2], v[3]];
    assert(x@ =~= v@);
    vec![Piece::Reals(x)]
}

} // verus!
