//! Root-mean-square norms.
use crate::analytic::Analytic;
use crate::dense::{normed, products, rmsnorm, sum_squares};
use crate::ideal::is_ideal;
use crate::ideal_dense::{
    can_norm, inverse_undoes_the_mean_square, norm_is_one_factor, norms_by, squares_in, sum_in,
};
use crate::ideal_softmax::parts_norm_by_one_factor;
use crate::partition::lemma_cuts_ordered;
use crate::softmax::{total, total_of};
use vstd::prelude::*;

verus! {

/// What a norm multiplies with, from the sum of `n` squares: one over the root of
/// their mean and `eps`.
pub open spec fn inverse_of<S: Analytic>(squares: S, n: usize, eps: S) -> S {
    S::of_int_spec(1).over_spec(
        squares.over_spec(S::of_int_spec(n as i64)).plus_spec(eps).root_spec(),
    )
}

/// What a norm multiplies with, from the sum of `n` squares.
pub fn inverse_rms<S: Analytic>(squares: S, n: usize, eps: S) -> (r: S)
    ensures
        r == inverse_of(squares, n, eps),
        forall|v: spec_fn(S) -> real| #[trigger]
            is_ideal(v) && 0 < n <= i64::MAX && v(squares) >= 0real && v(eps) >= 0real && v(squares)
                + v(eps) > 0real ==> v(r) > 0real && v(r) * v(r) * (v(squares) + n as real * v(
                eps,
            )) == n as real,
{
    proof {
        assert forall|v: spec_fn(S) -> real| #[trigger]
            is_ideal(v) && 0 < n <= i64::MAX && v(squares) >= 0real && v(eps) >= 0real && v(squares)
                + v(eps) > 0real implies v(inverse_of(squares, n, eps)) > 0real && v(
            inverse_of(squares, n, eps),
        ) * v(inverse_of(squares, n, eps)) * (v(squares) + n as real * v(eps)) == n as real by {
            inverse_undoes_the_mean_square(v, squares, n, eps);
        }
    }
    S::of_int(1).over(squares.over(S::of_int(n as i64)).plus(eps).root())
}

/// The sum of all squares, in order.
pub open spec fn squares_of<S: Analytic>(x: Seq<S>) -> S {
    products(S::zero_spec(), x, 0, x, 0, x.len() as int)
}

/// `r` is what the norm of the whole of `x` has in the places `a .. b`.
pub open spec fn is_norm_run<S: Analytic>(r: Seq<S>, x: Seq<S>, eps: S, w: Seq<S>, a: int, b: int) -> bool {
    &&& r.len() == b - a
    &&& forall|i: int|
        0 <= i < b - a ==> #[trigger] r[i] == normed(
            x[a + i],
            inverse_of(squares_of(x), x.len() as usize, eps),
            w[a + i],
        )
}

/// The numbers `x[a .. b]` of a vector that is normalized as a whole.
pub fn norm_run<S: Analytic>(x: &[S], eps: S, w: &[S], a: usize, b: usize) -> (r: Vec<S>)
    requires
        a <= b <= x.len(),
        b <= w.len(),
    ensures
        is_norm_run(r@, x@, eps, w@, a as int, b as int),
        forall|v: spec_fn(S) -> real| #[trigger]
            can_norm(v, squares_in(v, x@), x.len() as int, eps)
                ==> exists|c: real| #[trigger]
                norms_by(
                    v,
                    c,
                    squares_in(v, x@),
                    x.len() as int,
                    eps,
                    r@,
                    x@,
                    w@,
                    a as int,
                ),
{
    assert(x@.len() as usize == x.len());
    let inv: S = inverse_rms(sum_squares(x, 0, x.len()), x.len(), eps);
    let r: Vec<S> = rmsnorm(x, inv, w, a, b);
    proof {
        assert forall|v: spec_fn(S) -> real| #[trigger]
            can_norm(
                v,
                squares_in(v, x@),
                x.len() as int,
                eps,
            ) implies exists|c: real| #[trigger]
            norms_by(
                v,
                c,
                squares_in(v, x@),
                x.len() as int,
                eps,
                r@,
                x@,
                w@,
                a as int,
            ) by {
            let c = norm_is_one_factor(v, r@, x@, eps, w@, a as int, b as int);
            assert(norms_by(
                v,
                c,
                squares_in(v, x@),
                x.len() as int,
                eps,
                r@,
                x@,
                w@,
                a as int,
            ));
        }
    }
    r
}

/// The first `k` runs, one after the other.
pub open spec fn joined<S>(runs: Seq<Seq<S>>, k: int) -> Seq<S>
    decreases k,
{
    if k <= 0 {
        seq![]
    } else {
        joined(runs, k - 1) + runs[k - 1]
    }
}

/// However many workers share a norm, and wherever their slices are cut, their runs,
/// one after the other, are the norm of the whole: worker `t` has the places
/// `cut(t) .. cut(t + 1)`.
pub proof fn runs_make_up_the_norm<S: Analytic>(
    whole: Seq<S>,
    runs: Seq<Seq<S>>,
    x: Seq<S>,
    eps: S,
    w: Seq<S>,
    workers: int,
    cut: spec_fn(int) -> int,
)
    requires
        0 <= workers == runs.len(),
        cut(0) == 0,
        cut(workers) == x.len(),
        forall|t: int| 0 <= t < workers ==> #[trigger] cut(t) <= cut(t + 1),
        is_norm_run(whole, x, eps, w, 0, x.len() as int),
        forall|t: int|
            0 <= t < workers ==> is_norm_run(#[trigger] runs[t], x, eps, w, cut(t), cut(t + 1)),
    ensures
        joined(runs, workers) == whole,
{
    lemma_runs_joined(whole, runs, x, eps, w, workers, cut, workers);
    assert(whole.take(x.len() as int) =~= whole);
}

proof fn lemma_runs_joined<S: Analytic>(
    whole: Seq<S>,
    runs: Seq<Seq<S>>,
    x: Seq<S>,
    eps: S,
    w: Seq<S>,
    workers: int,
    cut: spec_fn(int) -> int,
    k: int,
)
    requires
        0 <= k <= workers == runs.len(),
        cut(0) == 0,
        cut(workers) == x.len(),
        forall|t: int| 0 <= t < workers ==> #[trigger] cut(t) <= cut(t + 1),
        is_norm_run(whole, x, eps, w, 0, x.len() as int),
        forall|t: int|
            0 <= t < workers ==> is_norm_run(#[trigger] runs[t], x, eps, w, cut(t), cut(t + 1)),
    ensures
        joined(runs, k) == whole.take(cut(k)),
    decreases k,
{
    if k == 0 {
        assert(joined(runs, 0) =~= whole.take(0));
    } else {
        lemma_runs_joined(whole, runs, x, eps, w, workers, cut, k - 1);
        let (a, b) = (cut(k - 1), cut(k - 1 + 1));
        lemma_cuts_ordered(cut, workers, 0, k - 1);
        lemma_cuts_ordered(cut, workers, k, workers);
        let r = runs[k - 1];
        assert(is_norm_run(r, x, eps, w, a, b));
        assert forall|i: int| a <= i < b implies r[i - a] == #[trigger] whole[i] by {
            assert(r[i - a] == normed(
                x[a + (i - a)],
                inverse_of(squares_of(x), x.len() as usize, eps),
                w[a + (i - a)],
            ));
            assert(whole[i] == normed(
                x[0 + i],
                inverse_of(squares_of(x), x.len() as usize, eps),
                w[0 + i],
            ));
        }
        assert(whole.take(a) + r =~= whole.take(b));
    }
}

/// The numbers `x[a .. b]` of a vector that is normalized as a whole, where the
/// workers have summed the squares of their parts.
pub fn norm_run_of_parts<S: Analytic>(
    x: &[S],
    parts: &[S],
    eps: S,
    w: &[S],
    a: usize,
    b: usize,
) -> (r: Vec<S>)
    requires
        a <= b <= x.len(),
        b <= w.len(),
    ensures
        r@.len() == b - a,
        forall|i: int|
            0 <= i < b - a ==> #[trigger] r@[i] == normed(
                x@[a + i],
                inverse_of(total_of(S::zero_spec(), parts@, parts.len() as int), x.len(), eps),
                w@[a + i],
            ),
        forall|v: spec_fn(S) -> real| #[trigger]
            can_norm(v, sum_in(v, parts@), x.len() as int, eps)
                ==> exists|c: real| #[trigger]
                norms_by(
                    v,
                    c,
                    sum_in(v, parts@),
                    x.len() as int,
                    eps,
                    r@,
                    x@,
                    w@,
                    a as int,
                ),
{
    let inv: S = inverse_rms(total(S::zero(), parts), x.len(), eps);
    let r: Vec<S> = rmsnorm(x, inv, w, a, b);
    proof {
        assert forall|v: spec_fn(S) -> real| #[trigger]
            can_norm(
                v,
                sum_in(v, parts@),
                x.len() as int,
                eps,
            ) implies exists|c: real| #[trigger]
            norms_by(
                v,
                c,
                sum_in(v, parts@),
                x.len() as int,
                eps,
                r@,
                x@,
                w@,
                a as int,
            ) by {
            parts_norm_by_one_factor(
                v,
                r@,
                x@,
                parts@,
                x.len(),
                eps,
                w@,
                a as int,
                b as int,
            );
        }
    }
    r
}

} // verus!
