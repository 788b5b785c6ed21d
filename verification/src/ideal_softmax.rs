//! What a softmax comes to where nothing rounds, and with it the weights of the
//! chosen experts and the draw of a token.
use crate::algebra::{lemma_cancel, lemma_group, lemma_simple, lemma_swap};
use crate::analytic::Analytic;
use crate::dense::normed;
use crate::ideal::{
    is_ideal, lemma_series_constant, lemma_series_factor, lemma_series_positive, lemma_series_same,
    series,
};
use crate::ideal_dense::{can_norm, inverse_undoes_the_mean_square, norms_by, sum_in};
use crate::norm::inverse_of;
use crate::sampling::{
    all_exps, bits_of, is_routed, numbers_of, reshared, reshared_weights, scores_at, weights_of,
    Softmax,
};
use crate::select::are_first;
use crate::softmax::{exps_of, greatest_of, shares_of, total_of, LOWEST};
use vstd::prelude::*;

verus! {

// ---------------------------------------------------------------------- softmax

/// The values of numbers.
pub open spec fn values_in<S>(v: spec_fn(S) -> real, x: Seq<S>) -> spec_fn(int) -> real {
    |j: int| v(x[j])
}

/// The values of the exponentials of numbers.
pub open spec fn powers_in<S: Analytic>(v: spec_fn(S) -> real, x: Seq<S>) -> spec_fn(int) -> real {
    |j: int| v(x[j].exp_spec())
}

/// Numbers that are added one after another come to their sum.
pub proof fn total_adds_up<S: Analytic>(v: spec_fn(S) -> real, first: S, x: Seq<S>, n: int)
    requires
        is_ideal(v),
        0 <= n,
    ensures
        v(total_of(first, x, n)) == v(first) + series(n, values_in(v, x)),
    decreases n,
{
    if n > 0 {
        total_adds_up(v, first, x, n - 1);
    }
}

/// The greatest of numbers is one of them, and none is above it.
pub proof fn greatest_is_above_all<S: Analytic>(v: spec_fn(S) -> real, first: S, x: Seq<S>, n: int)
    requires
        is_ideal(v),
        0 <= n,
    ensures
        v(first) <= v(greatest_of(first, x, n)),
        forall|j: int| 0 <= j < n ==> v(#[trigger] x[j]) <= v(greatest_of(first, x, n)),
        v(greatest_of(first, x, n)) == v(first) || exists|j: int|
            0 <= j < n && v(greatest_of(first, x, n)) == v(#[trigger] x[j]),
    decreases n,
{
    if n > 0 {
        greatest_is_above_all(v, first, x, n - 1);
        assert(v(x[n - 1]) <= v(greatest_of(first, x, n)));
    }
}

/// However far scores are moved down before their exponentials are taken, these stay in
/// proportion: each times the exponential of the move is that of the score itself.
pub proof fn moved_powers<S: Analytic>(v: spec_fn(S) -> real, x: Seq<S>, top: S, n: int)
    requires
        is_ideal(v),
        0 <= n <= x.len(),
    ensures
        v(top.exp_spec()) > 0real,
        forall|j: int|
            0 <= j < x.len() ==> v(#[trigger] exps_of(x, top)[j]) > 0real && v(exps_of(x, top)[j])
                * v(top.exp_spec()) == v(x[j].exp_spec()),
        series(n, values_in(v, exps_of(x, top))) * v(top.exp_spec()) == series(n, powers_in(v, x)),
        n > 0 ==> series(n, values_in(v, exps_of(x, top))) > 0real,
        n > 0 ==> series(n, powers_in(v, x)) > 0real,
{
    let e = exps_of(x, top);
    let c = v(top.exp_spec());
    assert forall|j: int| 0 <= j < x.len() implies v(#[trigger] e[j]) > 0real && v(e[j]) * c == v(
        x[j].exp_spec(),
    ) by {
        assert(e[j] == x[j].minus_spec(top).exp_spec());
    }
    let (f, g) = (powers_in(v, x), values_in(v, e));
    assert forall|j: int| 0 <= j < n implies #[trigger] f(j) == g(j) * c by {
        assert(v(e[j]) * c == v(x[j].exp_spec()));
    }
    assert forall|j: int| 0 <= j < n implies #[trigger] g(j) > 0real by {
        assert(v(e[j]) > 0real);
    }
    assert forall|j: int| 0 <= j < n implies #[trigger] f(j) > 0real by {}
    lemma_series_factor(n, f, g, c);
    lemma_series_positive(n, g);
    lemma_series_positive(n, f);
}

/// The shares of numbers are in proportion to them and add up to one.
pub proof fn shares_add_up_to_one<S: Analytic>(v: spec_fn(S) -> real, x: Seq<S>)
    requires
        is_ideal(v),
        series(x.len() as int, |j: int| v(x[j])) != 0real,
    ensures
        shares_of(x).len() == x.len(),
        forall|i: int|
            0 <= i < x.len() ==> v(#[trigger] shares_of(x)[i]) * series(
                x.len() as int,
                |j: int| v(x[j]),
            ) == v(x[i]),
        series(x.len() as int, |i: int| v(shares_of(x)[i])) == 1real,
{
    let n = x.len() as int;
    let r = shares_of(x);
    let g = |j: int| v(x[j]);
    let f = |i: int| v(r[i]);
    let sum = total_of(S::zero_spec(), x, n);
    total_adds_up(v, S::zero_spec(), x, n);
    lemma_series_same(n, values_in(v, x), g);
    let s = series(n, g);
    assert(v(sum) == s);
    assert forall|i: int| 0 <= i < n implies v(#[trigger] r[i]) * s == v(x[i]) by {
        assert(r[i] == x[i].over_spec(sum));
    }
    assert forall|i: int| 0 <= i < n implies #[trigger] g(i) == f(i) * s by {
        assert(v(r[i]) * s == v(x[i]));
    }
    lemma_series_factor(n, g, f, s);
    lemma_simple(s);
    lemma_cancel(series(n, f), 1real, s);
}

/// A softmax gives each of `n` scores a share in proportion to its exponential, all of
/// which add up to one, whatever the scores are moved down by.
pub proof fn softmax_is_in_proportion<S: Analytic>(v: spec_fn(S) -> real, x: Seq<S>, top: S)
    requires
        is_ideal(v),
        0 < x.len(),
    ensures
        shares_of(exps_of(x, top)).len() == x.len(),
        forall|i: int|
            0 <= i < x.len() ==> v(#[trigger] shares_of(exps_of(x, top))[i]) * series(
                x.len() as int,
                |j: int| v(x[j].exp_spec()),
            ) == v(x[i].exp_spec()),
        series(x.len() as int, |i: int| v(shares_of(exps_of(x, top))[i])) == 1real,
{
    let n = x.len() as int;
    let e = exps_of(x, top);
    let r = shares_of(e);
    let c = v(top.exp_spec());
    moved_powers(v, x, top, n);
    lemma_series_same(n, values_in(v, e), |j: int| v(e[j]));
    shares_add_up_to_one(v, e);
    let (s, p) = (series(n, |j: int| v(e[j])), series(n, |j: int| v(x[j].exp_spec())));
    lemma_series_same(n, powers_in(v, x), |j: int| v(x[j].exp_spec()));
    assert(s * c == p);
    assert forall|i: int| 0 <= i < n implies v(#[trigger] r[i]) * p == v(x[i].exp_spec()) by {
        assert(v(r[i]) * s == v(e[i]));
        lemma_group(v(r[i]), s, c);
        assert(v(e[i]) * c == v(x[i].exp_spec()));
    }
}

// ------------------------------------------------------------------------ norms

/// Workers that have summed the squares of their parts norm with one factor too, out of the
/// sum of all parts.
pub proof fn parts_norm_by_one_factor<S: Analytic>(
    v: spec_fn(S) -> real,
    r: Seq<S>,
    x: Seq<S>,
    parts: Seq<S>,
    n: usize,
    eps: S,
    w: Seq<S>,
    a: int,
    b: int,
)
    requires
        can_norm(v, sum_in(v, parts), n as int, eps),
        r.len() == b - a,
        forall|i: int|
            0 <= i < b - a ==> #[trigger] r[i] == normed(
                x[a + i],
                inverse_of(total_of(S::zero_spec(), parts, parts.len() as int), n, eps),
                w[a + i],
            ),
    ensures
        exists|c: real| #[trigger]
            norms_by(
                v,
                c,
                sum_in(v, parts),
                n as int,
                eps,
                r,
                x,
                w,
                a,
            ),
{
    let squares = total_of(S::zero_spec(), parts, parts.len() as int);
    total_adds_up(v, S::zero_spec(), parts, parts.len() as int);
    lemma_series_same(parts.len() as int, values_in(v, parts), |k: int| v(parts[k]));
    inverse_undoes_the_mean_square(v, squares, n, eps);
    let inv = inverse_of(squares, n, eps);
    let c = v(inv);
    assert forall|i: int| 0 <= i < r.len() implies v(#[trigger] r[i]) == c * v(x[a + i]) * v(
        w[a + i],
    ) by {
        assert(r[i] == normed(x[a + i], inv, w[a + i]));
        lemma_swap(v(x[a + i]), c);
    }
    assert(norms_by(
        v,
        c,
        sum_in(v, parts),
        n as int,
        eps,
        r,
        x,
        w,
        a,
    ));
}

// ---------------------------------------------------------------------- experts

/// The weights are in proportion to `f` and add up to one.
pub open spec fn are_in_proportion<S>(
    v: spec_fn(S) -> real,
    w: Seq<S>,
    f: spec_fn(int) -> real,
) -> bool {
    &&& forall|i: int|
        0 <= i < w.len() ==> v(#[trigger] w[i]) * series(w.len() as int, f) == f(i)
    &&& series(w.len() as int, |i: int| v(w[i])) == 1real
}

/// The weights of the chosen experts, over the chosen alone: each is in proportion to
/// the exponential of its score, all chosen are counted once, and the weights add up to
/// one.
pub proof fn weights_are_in_proportion<S: Analytic>(
    v: spec_fn(S) -> real,
    scores: Seq<u32>,
    top: Seq<usize>,
)
    requires
        is_ideal(v),
        0 < top.len(),
    ensures
        weights_of::<S>(scores, top).len() == top.len(),
        forall|i: int|
            0 <= i < top.len() ==> v(#[trigger] weights_of::<S>(scores, top)[i]) * series(
                top.len() as int,
                |j: int| v(S::of_bits_spec(scores[top[j] as int]).exp_spec()),
            ) == v(S::of_bits_spec(scores[top[i] as int]).exp_spec()),
        series(top.len() as int, |i: int| v(weights_of::<S>(scores, top)[i])) == 1real,
{
    let n = top.len() as int;
    let picked = scores_at::<S>(scores, top);
    let best = greatest_of(S::of_bits_spec(LOWEST), picked, picked.len() as int);
    softmax_is_in_proportion(v, picked, best);
    lemma_series_same(
        n,
        |j: int| v(picked[j].exp_spec()),
        |j: int| v(S::of_bits_spec(scores[top[j] as int]).exp_spec()),
    );
    let w = weights_of::<S>(scores, top);
    assert(w == shares_of(exps_of(picked, best)));
    lemma_series_same(n, |i: int| v(shares_of(exps_of(picked, best))[i]), |i: int| v(w[i]));
    assert forall|i: int| 0 <= i < n implies v(#[trigger] w[i]) * series(
        n,
        |j: int| v(S::of_bits_spec(scores[top[j] as int]).exp_spec()),
    ) == v(S::of_bits_spec(scores[top[i] as int]).exp_spec()) by {
        assert(picked[i] == S::of_bits_spec(scores[top[i] as int]));
    }
}

/// Chosen experts with equal scores have equal weights: as many as they are, each has
/// that part of one.
pub proof fn equal_scores_have_equal_weights<S: Analytic>(
    v: spec_fn(S) -> real,
    scores: Seq<u32>,
    top: Seq<usize>,
    score: S,
)
    requires
        is_ideal(v),
        0 < top.len(),
        forall|j: int|
            0 <= j < top.len() ==> v(S::of_bits_spec(scores[#[trigger] top[j] as int])) == v(score),
    ensures
        forall|i: int|
            0 <= i < top.len() ==> v(#[trigger] weights_of::<S>(scores, top)[i]) * (
            top.len() as real) == 1real,
{
    let n = top.len() as int;
    let f = |j: int| v(S::of_bits_spec(scores[top[j] as int]).exp_spec());
    let c = v(score.exp_spec());
    weights_are_in_proportion(v, scores, top);
    assert forall|j: int| 0 <= j < n implies #[trigger] f(j) == c by {
        assert(v(S::of_bits_spec(scores[top[j] as int])) == v(score));
    }
    lemma_series_constant(n, f, c);
    let w = weights_of::<S>(scores, top);
    assert forall|i: int| 0 <= i < n implies v(#[trigger] w[i]) * (n as real) == 1real by {
        assert(f(i) == c);
        assert(v(w[i]) * series(n, f) == c);
        lemma_group(v(w[i]), n as real, c);
        lemma_simple(c);
        lemma_cancel(v(w[i]) * (n as real), 1real, c);
    }
}

/// Numbers that add up to the sum of them all over the same divisor.
proof fn lemma_reshared<S: Analytic>(v: spec_fn(S) -> real, exp: S, all: S, chosen: S)
    requires
        is_ideal(v),
        v(all) > 0real,
        v(chosen) > 0real,
    ensures
        v(reshared(exp, all, chosen)) * v(chosen) == v(exp),
{
    let (e, a, c) = (v(exp), v(all), v(chosen));
    let p = v(exp.over_spec(all));
    let q = v(chosen.over_spec(all));
    let r = v(reshared(exp, all, chosen));
    assert(p * a == e && q * a == c);
    lemma_simple(a);
    assert(q != 0real);
    assert(r * q == p);
    lemma_group(r, q, a);
}

/// The numbers with these bits are positive.
pub open spec fn are_positive<S: Analytic>(v: spec_fn(S) -> real, bits: Seq<u32>) -> bool {
    forall|j: int| 0 <= j < bits.len() ==> v(S::of_bits_spec(#[trigger] bits[j])) > 0real
}

/// The weights of the chosen experts out of a softmax over all: made to add up to one,
/// they too are in proportion to the exponentials.
#[verifier::rlimit(40)]
pub proof fn reshared_weights_are_in_proportion<S: Analytic>(
    v: spec_fn(S) -> real,
    exps: Seq<u32>,
    top: Seq<usize>,
)
    requires
        is_ideal(v),
        0 < top.len(),
        are_positive(v, exps),
        forall|j: int| 0 <= j < top.len() ==> #[trigger] top[j] < exps.len(),
    ensures
        reshared_weights::<S>(exps, top).len() == top.len(),
        forall|i: int|
            0 <= i < top.len() ==> v(#[trigger] reshared_weights::<S>(exps, top)[i]) * series(
                top.len() as int,
                |j: int| v(S::of_bits_spec(exps[top[j] as int])),
            ) == v(S::of_bits_spec(exps[top[i] as int])),
        series(top.len() as int, |i: int| v(reshared_weights::<S>(exps, top)[i])) == 1real,
{
    let n = top.len() as int;
    let (all, picked) = (numbers_of::<S>(exps), scores_at::<S>(exps, top));
    let total = total_of(S::zero_spec(), all, all.len() as int);
    let chosen = total_of(S::zero_spec(), picked, n);
    let f = |j: int| v(S::of_bits_spec(exps[top[j] as int]));
    let w = reshared_weights::<S>(exps, top);
    let h = |i: int| v(w[i]);
    assert(top[0] < exps.len());
    total_adds_up(v, S::zero_spec(), all, all.len() as int);
    total_adds_up(v, S::zero_spec(), picked, n);
    lemma_series_same(n, values_in(v, picked), f);
    assert forall|j: int| 0 <= j < n implies #[trigger] f(j) > 0real by {
        assert(top[j] < exps.len());
    }
    lemma_series_positive(n, f);
    let g = values_in(v, all);
    assert forall|j: int| 0 <= j < all.len() implies #[trigger] g(j) > 0real by {
        assert(v(S::of_bits_spec(exps[j])) > 0real);
    }
    lemma_series_positive(all.len() as int, g);
    let s = series(n, f);
    assert(v(chosen) == s);
    assert forall|i: int| 0 <= i < n implies v(#[trigger] w[i]) * s == f(i) by {
        assert(w[i] == reshared(picked[i], total, chosen));
        lemma_reshared(v, picked[i], total, chosen);
    }
    assert forall|i: int| 0 <= i < n implies #[trigger] f(i) == h(i) * s by {
        assert(v(w[i]) * s == f(i));
    }
    lemma_series_factor(n, f, h, s);
    lemma_simple(s);
    lemma_cancel(series(n, h), 1real, s);
}

/// Whichever experts a router takes its softmax over, the weights of the chosen are in
/// proportion to the exponentials of their scores and add up to one; `bits` gives the
/// bits of the numbers that go into the choice.
#[verifier::rlimit(40)]
pub proof fn routed_weights_are_in_proportion<S: Analytic>(
    v: spec_fn(S) -> real,
    over: Softmax,
    bits: spec_fn(S) -> u32,
    scores: Seq<S>,
    topk: int,
    top: Seq<usize>,
    weights: Seq<S>,
)
    requires
        is_ideal(v),
        0 < topk,
        is_routed(over, bits, scores, topk, top, weights),
        forall|j: int|
            0 <= j < scores.len() ==> S::of_bits_spec(bits(#[trigger] scores[j])) == scores[j],
        forall|j: int|
            0 <= j < scores.len() ==> S::of_bits_spec(bits(#[trigger] all_exps(scores)[j]))
                == all_exps(scores)[j],
    ensures
        weights.len() == topk,
        forall|i: int|
            0 <= i < topk ==> v(#[trigger] weights[i]) * series(
                topk,
                |j: int| v(scores[top[j] as int].exp_spec()),
            ) == v(scores[top[i] as int].exp_spec()),
        series(topk, |i: int| v(weights[i])) == 1real,
{
    let f = |j: int| v(scores[top[j] as int].exp_spec());
    match over {
        Softmax::Chosen => {
            let b = bits_of(bits, scores);
            assert(are_first(top, b));
            weights_are_in_proportion(v, b, top);
            let g = |j: int| v(S::of_bits_spec(b[top[j] as int]).exp_spec());
            assert forall|j: int| 0 <= j < topk implies #[trigger] g(j) == f(j) by {
                assert(top[j] < b.len());
                assert(S::of_bits_spec(bits(scores[top[j] as int])) == scores[top[j] as int]);
            }
            lemma_series_same(topk, g, f);
            assert forall|i: int| 0 <= i < topk implies v(#[trigger] weights[i]) * series(topk, f)
                == f(i) by {
                assert(g(i) == f(i));
            }
        },
        Softmax::All => {
            let e = all_exps(scores);
            let n = scores.len() as int;
            let best = greatest_of(S::of_bits_spec(LOWEST), scores, n);
            let c = v(best.exp_spec());
            let b = bits_of(bits, e);
            assert(are_first(top, b));
            moved_powers(v, scores, best, n);
            assert forall|j: int| 0 <= j < b.len() implies v(
                S::of_bits_spec(#[trigger] b[j]),
            ) > 0real by {
                assert(S::of_bits_spec(bits(e[j])) == e[j]);
                assert(v(exps_of(scores, best)[j]) > 0real);
            }
            assert forall|j: int| 0 <= j < topk implies #[trigger] top[j] < b.len() by {}
            reshared_weights_are_in_proportion(v, b, top);
            let g = |j: int| v(S::of_bits_spec(b[top[j] as int]));
            assert forall|j: int| 0 <= j < topk implies #[trigger] f(j) == g(j) * c by {
                assert(top[j] < b.len());
                assert(S::of_bits_spec(bits(e[top[j] as int])) == e[top[j] as int]);
                assert(v(exps_of(scores, best)[top[j] as int]) * c == v(
                    scores[top[j] as int].exp_spec(),
                ));
            }
            lemma_series_factor(topk, f, g, c);
            assert forall|i: int| 0 <= i < topk implies v(#[trigger] weights[i]) * series(topk, f)
                == f(i) by {
                assert(f(i) == g(i) * c);
                lemma_group(v(weights[i]), series(topk, g), c);
            }
        },
    }
}

} // verus!
