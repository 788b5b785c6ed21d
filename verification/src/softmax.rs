//! The parts of a softmax: the greatest score, the exponentials below it, their
//! sum, and the share of each.
use crate::analytic::Analytic;
use vstd::prelude::*;

verus! {

/// The lowest finite number, in its single-precision encoding.
pub const LOWEST: u32 = 0xff7f_ffff;

/// The greatest of `first` and the first `n` numbers.
pub open spec fn greatest_of<S: Analytic>(first: S, v: Seq<S>, n: int) -> S
    decreases n,
{
    if n <= 0 {
        first
    } else {
        greatest_of(first, v, n - 1).larger_spec(v[n - 1])
    }
}

/// `first` plus the first `n` numbers, one after another.
pub open spec fn total_of<S: Analytic>(first: S, v: Seq<S>, n: int) -> S
    decreases n,
{
    if n <= 0 {
        first
    } else {
        total_of(first, v, n - 1).plus_spec(v[n - 1])
    }
}

/// The exponential of each number less `top`.
pub open spec fn exps_of<S: Analytic>(v: Seq<S>, top: S) -> Seq<S> {
    Seq::new(v.len(), |i: int| v[i].minus_spec(top).exp_spec())
}

/// Each number over the sum of all.
pub open spec fn shares_of<S: Analytic>(v: Seq<S>) -> Seq<S> {
    let sum = total_of(S::zero_spec(), v, v.len() as int);
    Seq::new(v.len(), |i: int| v[i].over_spec(sum))
}

/// The greatest of `first` and the numbers.
pub fn greatest<S: Analytic>(first: S, v: &[S]) -> (r: S)
    ensures
        r == greatest_of(first, v@, v.len() as int),
{
    let mut top: S = first;
    for i in 0..v.len()
        invariant
            top == greatest_of(first, v@, i as int),
    {
        top = top.larger(v[i]);
    }
    top
}

/// `first` plus the numbers, one after another.
pub fn total<S: Analytic>(first: S, v: &[S]) -> (r: S)
    ensures
        r == total_of(first, v@, v.len() as int),
{
    let mut sum: S = first;
    for i in 0..v.len()
        invariant
            sum == total_of(first, v@, i as int),
    {
        sum = sum.plus(v[i]);
    }
    sum
}

/// The exponential of each number less `top`.
pub fn exps_below<S: Analytic>(v: &[S], top: S) -> (r: Vec<S>)
    ensures
        r@ == exps_of(v@, top),
{
    let mut out: Vec<S> = Vec::new();
    for i in 0..v.len()
        invariant
            out@.len() == i,
            forall|k: int| 0 <= k < i ==> #[trigger] out@[k] == exps_of(v@, top)[k],
    {
        out.push(v[i].minus(top).exp());
    }
    assert(out@ =~= exps_of(v@, top));
    out
}

/// Each number over the sum of all.
pub fn shares<S: Analytic>(v: &[S]) -> (r: Vec<S>)
    ensures
        r@ == shares_of(v@),
{
    let sum: S = total(S::zero(), v);
    let mut out: Vec<S> = Vec::new();
    for i in 0..v.len()
        invariant
            sum == total_of(S::zero_spec(), v@, v@.len() as int),
            out@.len() == i,
            forall|k: int| 0 <= k < i ==> #[trigger] out@[k] == shares_of(v@)[k],
    {
        out.push(v[i].over(sum));
    }
    assert(out@ =~= shares_of(v@));
    out
}

} // verus!
