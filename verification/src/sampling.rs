//! The choice of a token from its logits, and of experts from theirs, with the
//! shares of what is chosen.
use crate::analytic::Analytic;
use crate::ideal::is_ideal;
use crate::ideal_draw::{are_hot, falls_on, tokens_are_drawn_by_their_shares};
use crate::ideal_softmax::{
    are_in_proportion, are_positive, reshared_weights_are_in_proportion, weights_are_in_proportion,
};
use crate::rng::{rng_fraction, xorshift};
use crate::select::{
    are_first, first_experts_are_one, greedy, is_choice, numbers, top_experts, top_k, top_list,
    top_list_is_of_scores,
};
use crate::softmax::{
    exps_below, exps_of, greatest, greatest_of, shares, shares_of, total, total_of, LOWEST,
};
use vstd::prelude::*;

verus! {

// ---------------------------------------------------------------------- tokens

/// The number of tokens to draw from, between 1 and 64.
pub open spec fn drawn_from(topk: int) -> int {
    if topk < 1 {
        1
    } else if topk > 64 {
        64
    } else {
        topk
    }
}

/// A temperature that is given in thousandths.
pub open spec fn temperature<S: Analytic>(temp_milli: u32) -> S {
    S::of_int_spec(temp_milli as i64).over_spec(S::of_int_spec(1000))
}

/// The exponential of each score less the best one, over the temperature. The best
/// score stands first.
pub open spec fn heats<S: Analytic>(top: Seq<(u32, u32)>, temp: S) -> Seq<S> {
    Seq::new(
        top.len(),
        |i: int|
            S::of_bits_spec(top[i].0).minus_spec(S::of_bits_spec(top[0].0)).over_spec(
                temp,
            ).exp_spec(),
    )
}

/// The fraction that a random number stands for: its upper 53 bits over 2^53.
pub open spec fn fraction<S: Analytic>(x: u64) -> S {
    S::of_int_spec((x / 2048) as i64).over_spec(S::of_int_spec(0x20_0000_0000_0000))
}

/// The first entry from `n` on at which the cumulated shares reach `r`, or the last
/// entry where none does.
pub open spec fn drawn<S: Analytic>(shares: Seq<S>, r: S, n: int) -> int
    decreases shares.len() - n,
{
    if n >= shares.len() - 1 || r.at_most_spec(total_of(S::zero_spec(), shares, n + 1)) {
        n
    } else {
        drawn(shares, r, n + 1)
    }
}

/// A drawn entry is the first at which the cumulated shares reach the fraction:
/// before every earlier one they stay below it.
pub proof fn drawn_is_first<S: Analytic>(shares: Seq<S>, r: S, n: int)
    requires
        0 <= n < shares.len(),
    ensures
        n <= drawn(shares, r, n) < shares.len(),
        forall|i: int|
            n <= i < drawn(shares, r, n) ==> !r.at_most_spec(
                #[trigger] total_of(S::zero_spec(), shares, i + 1),
            ),
        r.at_most_spec(total_of(S::zero_spec(), shares, drawn(shares, r, n) + 1)) || drawn(
            shares,
            r,
            n,
        ) == shares.len() - 1,
    decreases shares.len() - n,
{
    if n < shares.len() - 1 && !r.at_most_spec(total_of(S::zero_spec(), shares, n + 1)) {
        drawn_is_first(shares, r, n + 1);
    }
}

/// The exponential of each score less the best one, over the temperature.
fn heat<S: Analytic>(top: &[(u32, u32)], temp: S) -> (r: Vec<S>)
    requires
        0 < top.len(),
    ensures
        r@ == heats(top@, temp),
{
    let best: S = S::of_bits(top[0].0);
    let mut out: Vec<S> = Vec::new();
    for i in 0..top.len()
        invariant
            best == S::of_bits_spec(top@[0].0),
            out@.len() == i,
            forall|k: int| 0 <= k < i ==> #[trigger] out@[k] == heats(top@, temp)[k],
    {
        out.push(S::of_bits(top[i].0).minus(best).over(temp).exp());
    }
    assert(out@ =~= heats(top@, temp));
    out
}

/// Draws one of the entries by their shares and a random fraction.
pub fn draw<S: Analytic>(shares: &[S], r: S) -> (n: usize)
    requires
        0 < shares.len(),
    ensures
        n == drawn(shares@, r, 0),
        n < shares.len(),
{
    let mut n: usize = 0;
    assert(total_of(S::zero_spec(), shares@, 0) == S::zero_spec());
    let mut acc: S = S::zero().plus(shares[0]);
    while n < shares.len() - 1 && !r.at_most(acc)
        invariant
            n < shares.len(),
            acc == total_of(S::zero_spec(), shares@, n + 1),
            drawn(shares@, r, 0) == drawn(shares@, r, n as int),
        decreases shares.len() - n,
    {
        n = n + 1;
        acc = acc.plus(shares[n]);
    }
    n
}

/// Chooses the next token by its score, of which the bits are given. At
/// temperature 0, given in thousandths, the greatest score wins; otherwise one of
/// the `topk` best is drawn, and the random state moves on. Where a score is no
/// number, some token is drawn; which one is left open, as its place among the
/// best is.
pub fn sample_logits<S: Analytic>(
    logits: &[u32],
    temp_milli: u32,
    topk: usize,
    state: &mut u64,
) -> (token: u32)
    requires
        logits.len() <= 0x1_0000_0000,
        temp_milli > 0 ==> 0 < logits.len(),
    ensures
        temp_milli == 0 ==> is_choice(logits@, token) && *final(state) == *old(state),
        temp_milli > 0 ==> token < logits.len() && *final(state) == xorshift(*old(state)),
        temp_milli > 0 && numbers(logits@) ==> ({
            let top = top_list(logits@, drawn_from(topk as int), logits.len() as int);
            let shares = shares_of(heats(top, temperature::<S>(temp_milli)));
            let n = drawn(shares, fraction(xorshift(*old(state))), 0);
            0 <= n < top.len() <= 64 && token == top[n].1
        }),
        temp_milli > 0 && numbers(logits@) ==> ({
            let top = top_list(logits@, drawn_from(topk as int), logits.len() as int);
            forall|v: spec_fn(S) -> real, hot: Seq<S>|
                is_ideal(v) && #[trigger] are_hot(v, top, temp_milli, hot) ==> exists|n: int|
                    #![trigger top[n]]
                    0 <= n < top.len() && token == top[n].1 && falls_on(
                        v,
                        hot,
                        xorshift(*old(state)),
                        n,
                    )
        }),
{
    if temp_milli == 0 {
        return greedy(logits);
    }
    let k: usize = if topk < 1 {
        1
    } else if topk > 64 {
        64
    } else {
        topk
    };
    proof {
        top_list_is_of_scores(logits@, k as int, logits.len() as int);
    }
    let top: Vec<(u32, u32)> = top_k(logits, k);
    let temp: S = S::of_int(temp_milli as i64).over(S::of_int(1000));
    let parts: Vec<S> = shares(heat(top.as_slice(), temp).as_slice());
    let r: S = S::of_int(rng_fraction(state) as i64).over(S::of_int(0x20_0000_0000_0000));
    proof {
        if numbers(logits@) {
            assert forall|v: spec_fn(S) -> real, hot: Seq<S>|
                is_ideal(v) && #[trigger] are_hot(v, top@, temp_milli, hot) implies falls_on(
                v,
                hot,
                xorshift(*old(state)),
                drawn(parts@, r, 0),
            ) by {
                tokens_are_drawn_by_their_shares(v, top@, temp_milli, hot, xorshift(*old(state)));
            }
        }
    }
    let n: usize = draw(parts.as_slice(), r);
    assert(top@[n as int] == top@[drawn(parts@, r, 0)]);
    top[n].1
}

// --------------------------------------------------------------------- experts

/// The scores of the chosen experts, of which the bits are given.
pub open spec fn scores_at<S: Analytic>(scores: Seq<u32>, top: Seq<usize>) -> Seq<S> {
    Seq::new(top.len(), |i: int| S::of_bits_spec(scores[top[i] as int]))
}

/// The shares of the chosen experts in a softmax over them alone.
pub open spec fn weights_of<S: Analytic>(scores: Seq<u32>, top: Seq<usize>) -> Seq<S> {
    let picked = scores_at::<S>(scores, top);
    shares_of(
        exps_of(picked, greatest_of(S::of_bits_spec(LOWEST), picked, picked.len() as int)),
    )
}

/// The `topk` experts with the greatest scores, and their weights.
pub fn choose_experts<S: Analytic>(scores: &[u32], topk: usize) -> (r: (Vec<usize>, Vec<S>))
    requires
        topk <= scores.len(),
        numbers(scores@),
    ensures
        r.0@.len() == topk,
        are_first(r.0@, scores@),
        r.1@ == weights_of::<S>(scores@, r.0@),
        forall|v: spec_fn(S) -> real| #[trigger]
            is_ideal(v) && 0 < topk ==> are_in_proportion(
                v,
                r.1@,
                |i: int| v(S::of_bits_spec(scores@[r.0@[i] as int]).exp_spec()),
            ),
{
    let top: Vec<usize> = top_experts(scores, topk);
    let mut picked: Vec<S> = Vec::new();
    for i in 0..topk
        invariant
            top@.len() == topk,
            are_first(top@, scores@),
            picked@.len() == i,
            forall|k: int|
                0 <= k < i ==> #[trigger] picked@[k] == scores_at::<S>(scores@, top@)[k],
    {
        assert(top@[i as int] < scores@.len());
        picked.push(S::of_bits(scores[top[i]]));
    }
    assert(picked@ =~= scores_at::<S>(scores@, top@));
    let best: S = greatest(S::of_bits(LOWEST), picked.as_slice());
    let weights: Vec<S> = shares(exps_below(picked.as_slice(), best).as_slice());
    proof {
        assert forall|v: spec_fn(S) -> real| #[trigger]
            is_ideal(v) && 0 < topk implies are_in_proportion(
            v,
            weights@,
            |i: int| v(S::of_bits_spec(scores@[top@[i] as int]).exp_spec()),
        ) by {
            weights_are_in_proportion(v, scores@, top@);
        }
    }
    (top, weights)
}

/// The numbers of which the bits are given.
pub open spec fn numbers_of<S: Analytic>(bits: Seq<u32>) -> Seq<S> {
    Seq::new(bits.len(), |i: int| S::of_bits_spec(bits[i]))
}

/// The exponential of each expert's score less the greatest one; the bits of the
/// scores are given.
pub fn expert_exps<S: Analytic>(scores: &[u32]) -> (r: Vec<S>)
    ensures
        ({
            let all = numbers_of::<S>(scores@);
            r@ == exps_of(all, greatest_of(S::of_bits_spec(LOWEST), all, all.len() as int))
        }),
{
    let all: Vec<S> = values(scores);
    let best: S = greatest(S::of_bits(LOWEST), all.as_slice());
    exps_below(all.as_slice(), best)
}

/// The numbers of which the bits are given.
fn values<S: Analytic>(bits: &[u32]) -> (r: Vec<S>)
    ensures
        r@ == numbers_of::<S>(bits@),
{
    let mut out: Vec<S> = Vec::new();
    for i in 0..bits.len()
        invariant
            out@.len() == i,
            forall|k: int| 0 <= k < i ==> #[trigger] out@[k] == numbers_of::<S>(bits@)[k],
    {
        out.push(S::of_bits(bits[i]));
    }
    assert(out@ =~= numbers_of::<S>(bits@));
    out
}

/// The weight of an expert in a softmax over all experts, made to add up to one over
/// the chosen: its share of all, over the share of the chosen.
pub open spec fn reshared<S: Analytic>(exp: S, all: S, chosen: S) -> S {
    exp.over_spec(all).over_spec(chosen.over_spec(all))
}

/// The weights of the chosen experts, out of the exponentials of all.
pub open spec fn reshared_weights<S: Analytic>(exps: Seq<u32>, top: Seq<usize>) -> Seq<S> {
    let (all, picked) = (numbers_of::<S>(exps), scores_at::<S>(exps, top));
    let total = total_of(S::zero_spec(), all, all.len() as int);
    let chosen = total_of(S::zero_spec(), picked, picked.len() as int);
    Seq::new(top.len(), |i: int| reshared(picked[i], total, chosen))
}

/// The `topk` experts with the greatest exponentials, of which the bits are given, and
/// their weights out of a softmax over all experts.
pub fn choose_by_exps<S: Analytic>(exps: &[u32], topk: usize) -> (r: (Vec<usize>, Vec<S>))
    requires
        topk <= exps.len(),
        numbers(exps@),
    ensures
        r.0@.len() == topk,
        are_first(r.0@, exps@),
        r.1@ == reshared_weights::<S>(exps@, r.0@),
        forall|v: spec_fn(S) -> real| #[trigger]
            is_ideal(v) && 0 < topk && are_positive(v, exps@) ==> are_in_proportion(
                v,
                r.1@,
                |i: int| v(S::of_bits_spec(exps@[r.0@[i] as int])),
            ),
{
    let top: Vec<usize> = top_experts(exps, topk);
    let all: Vec<S> = values(exps);
    let mut picked: Vec<S> = Vec::new();
    for i in 0..topk
        invariant
            top@.len() == topk,
            are_first(top@, exps@),
            picked@.len() == i,
            forall|k: int| 0 <= k < i ==> #[trigger] picked@[k] == scores_at::<S>(exps@, top@)[k],
    {
        assert(top@[i as int] < exps@.len());
        picked.push(S::of_bits(exps[top[i]]));
    }
    assert(picked@ =~= scores_at::<S>(exps@, top@));
    let (sum, chosen): (S, S) = (
        total(S::zero(), all.as_slice()),
        total(S::zero(), picked.as_slice()),
    );
    let mut weights: Vec<S> = Vec::new();
    for i in 0..topk
        invariant
            picked@.len() == topk,
            top@.len() == topk,
            picked@ == scores_at::<S>(exps@, top@),
            sum == total_of(S::zero_spec(), numbers_of::<S>(exps@), exps@.len() as int),
            chosen == total_of(S::zero_spec(), picked@, topk as int),
            weights@.len() == i,
            forall|k: int|
                0 <= k < i ==> #[trigger] weights@[k] == reshared_weights::<S>(exps@, top@)[k],
    {
        weights.push(picked[i].over(sum).over(chosen.over(sum)));
    }
    assert(weights@ =~= reshared_weights::<S>(exps@, top@));
    proof {
        assert forall|v: spec_fn(S) -> real| #[trigger]
            is_ideal(v) && 0 < topk && are_positive(v, exps@) implies are_in_proportion(
            v,
            weights@,
            |i: int| v(S::of_bits_spec(exps@[top@[i] as int])),
        ) by {
            reshared_weights_are_in_proportion(v, exps@, top@);
        }
    }
    (top, weights)
}

/// Over which experts the router takes its softmax: over the chosen alone, or over
/// all.
#[derive(Clone, Copy, Debug, PartialEq, Eq, Structural)]
pub enum Softmax {
    Chosen,
    All,
}

/// The exponential of each score less the greatest one.
pub open spec fn all_exps<S: Analytic>(scores: Seq<S>) -> Seq<S> {
    exps_of(scores, greatest_of(S::of_bits_spec(LOWEST), scores, scores.len() as int))
}

/// The bits of numbers; `bits` says what they are.
pub open spec fn bits_of<S>(bits: spec_fn(S) -> u32, x: Seq<S>) -> Seq<u32> {
    Seq::new(x.len(), |i: int| bits(x[i]))
}

/// `top` and `weights` are the experts that the router's scores choose, and their
/// weights; `bits` says what the bits of a number are.
pub open spec fn is_routed<S: Analytic>(
    over: Softmax,
    bits: spec_fn(S) -> u32,
    scores: Seq<S>,
    topk: int,
    top: Seq<usize>,
    weights: Seq<S>,
) -> bool {
    &&& top.len() == topk
    &&& match over {
        Softmax::Chosen => {
            let b = bits_of(bits, scores);
            are_first(top, b) && weights == weights_of::<S>(b, top)
        },
        Softmax::All => {
            let b = bits_of(bits, all_exps(scores));
            are_first(top, b) && weights == reshared_weights::<S>(b, top)
        },
    }
}

/// The router's scores settle which experts are chosen, and their weights.
pub proof fn routes_are_one<S: Analytic>(
    over: Softmax,
    bits: spec_fn(S) -> u32,
    scores: Seq<S>,
    topk: int,
    one: (Seq<usize>, Seq<S>),
    other: (Seq<usize>, Seq<S>),
)
    requires
        is_routed(over, bits, scores, topk, one.0, one.1),
        is_routed(over, bits, scores, topk, other.0, other.1),
    ensures
        one == other,
{
    let b = match over {
        Softmax::Chosen => bits_of(bits, scores),
        Softmax::All => bits_of(bits, all_exps(scores)),
    };
    first_experts_are_one(one.0, other.0, b);
}

/// The exponentials that a softmax over all experts goes by are those of the scores,
/// where a number is what its bits stand for.
pub proof fn exps_are_of_scores<S: Analytic>(
    bits: spec_fn(S) -> u32,
    scores: Seq<S>,
    exps: Seq<S>,
)
    requires
        forall|x: S| S::of_bits_spec(#[trigger] bits(x)) == x,
        ({
            let all = numbers_of::<S>(bits_of(bits, scores));
            exps == exps_of(all, greatest_of(S::of_bits_spec(LOWEST), all, all.len() as int))
        }),
    ensures
        exps == all_exps(scores),
{
    assert(numbers_of::<S>(bits_of(bits, scores)) =~= scores);
}

} // verus!
