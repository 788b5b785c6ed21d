//! How a token is drawn where nothing rounds: by a softmax of the scores over the
//! temperature, and a random fraction.
use crate::algebra::{lemma_cancel, lemma_group, lemma_keeps_order, lemma_simple, lemma_spread};
use crate::analytic::Analytic;
use crate::ideal::{is_ideal, lemma_series_factor, lemma_series_positive, lemma_series_same, series};
use crate::ideal_softmax::{shares_add_up_to_one, total_adds_up, values_in};
use crate::sampling::{drawn, drawn_from, drawn_is_first, fraction, heats, temperature};
use crate::softmax::{shares_of, total_of};
use vstd::prelude::*;

verus! {

/// A temperature in thousandths is that many thousandths, whatever it is.
pub proof fn temperature_is_in_thousandths<S: Analytic>(v: spec_fn(S) -> real, temp_milli: u32)
    requires
        is_ideal(v),
    ensures
        v(temperature::<S>(temp_milli)) * 1000real == temp_milli as real,
{
    assert(v(S::of_int_spec(temp_milli as i64)) == temp_milli as real);
    assert(v(S::of_int_spec(1000)) == 1000real);
}

/// Different temperatures in thousandths are different numbers, and the higher of two
/// is the greater.
pub proof fn higher_temperatures_are_greater<S: Analytic>(
    v: spec_fn(S) -> real,
    one: u32,
    other: u32,
)
    requires
        is_ideal(v),
    ensures
        one < other <==> v(temperature::<S>(one)) < v(temperature::<S>(other)),
        one == other <==> v(temperature::<S>(one)) == v(temperature::<S>(other)),
{
    temperature_is_in_thousandths(v, one);
    temperature_is_in_thousandths(v, other);
    if one < other {
        assert((one as real) < (other as real));
    }
    if other < one {
        assert((other as real) < (one as real));
    }
}

/// As many tokens are drawn from as are asked for, but at least one and at most 64.
pub proof fn drawn_from_is_bounded(topk: int)
    ensures
        1 <= drawn_from(topk) <= 64,
        1 <= topk <= 64 <==> drawn_from(topk) == topk,
        forall|more: int| topk <= more ==> drawn_from(topk) <= #[trigger] drawn_from(more),
{
}

/// A random fraction is the random number over 2^64, cut to 53 bits: it is not
/// negative and below one.
pub proof fn fraction_is_below_one<S: Analytic>(v: spec_fn(S) -> real, x: u64)
    requires
        is_ideal(v),
    ensures
        0real <= v(fraction::<S>(x)) < 1real,
        v(fraction::<S>(x)) * 0x20_0000_0000_0000real == (x as int / 2048) as real,
        v(fraction::<S>(x)) * 0x1_0000_0000_0000_0000real <= x as real,
        (x as real) < v(fraction::<S>(x)) * 0x1_0000_0000_0000_0000real + 2048real,
{
    let f = v(fraction::<S>(x));
    let k: int = x as int / 2048;
    let whole = S::of_int_spec((x / 2048) as i64);
    let unit = S::of_int_spec(0x20_0000_0000_0000);
    assert(v(whole) == k as real);
    assert(v(unit) == 0x20_0000_0000_0000real);
    assert(f * 0x20_0000_0000_0000real == k as real);
    assert(0 <= k < 0x20_0000_0000_0000);
    assert(0real <= k as real);
    assert((k as real) < 0x20_0000_0000_0000real);
    assert(2048 * k <= x < 2048 * k + 2048);
    assert(2048real * (k as real) <= x as real);
    assert((x as real) < 2048real * (k as real) + 2048real);
}

/// The exponentials that a draw goes by are those of the scores over the temperature,
/// all over that of the best: `hot` are the scores over the temperature.
#[verifier::rlimit(40)]
pub proof fn heats_are_in_proportion<S: Analytic>(
    v: spec_fn(S) -> real,
    top: Seq<(u32, u32)>,
    temp_milli: u32,
    hot: Seq<S>,
)
    requires
        is_ideal(v),
        0 < temp_milli,
        0 < top.len() == hot.len(),
        forall|i: int|
            0 <= i < top.len() ==> v(#[trigger] hot[i]) * (temp_milli as real) == 1000real * v(
                S::of_bits_spec(top[i].0),
            ),
    ensures
        heats(top, temperature::<S>(temp_milli)).len() == top.len(),
        v(hot[0].exp_spec()) > 0real,
        forall|i: int|
            0 <= i < top.len() ==> v(#[trigger] heats(top, temperature::<S>(temp_milli))[i]) * v(
                hot[0].exp_spec(),
            ) == v(hot[i].exp_spec()),
{
    let temp = temperature::<S>(temp_milli);
    let tm = temp_milli as real;
    temperature_is_in_thousandths(v, temp_milli);
    assert(tm > 0real);
    let t = v(temp);
    assert(t != 0real);
    let best = S::of_bits_spec(top[0].0);
    assert(v(hot[0]) * tm == 1000real * v(best));
    assert forall|i: int| 0 <= i < top.len() implies v(#[trigger] heats(top, temp)[i]) * v(
        hot[0].exp_spec(),
    ) == v(hot[i].exp_spec()) by {
        let score = S::of_bits_spec(top[i].0);
        let gap = score.minus_spec(best).over_spec(temp);
        let apart = hot[i].minus_spec(hot[0]);
        assert(heats(top, temp)[i] == gap.exp_spec());
        assert(v(hot[i]) * tm == 1000real * v(score));
        lemma_spread(v(hot[i]), v(hot[0]), tm);
        assert(v(apart) * tm == 1000real * (v(score) - v(best)));
        assert(v(gap) * t == v(score) - v(best));
        lemma_group(v(gap), t, 1000real);
        assert(v(gap) * tm == (v(gap) * t) * 1000real);
        lemma_cancel(v(gap), v(apart), tm);
        assert(v(gap.exp_spec()) == v(apart.exp_spec()));
    }
}

/// The numbers `hot` are the scores over the temperature.
pub open spec fn are_hot<S: Analytic>(
    v: spec_fn(S) -> real,
    top: Seq<(u32, u32)>,
    temp_milli: u32,
    hot: Seq<S>,
) -> bool {
    &&& hot.len() == top.len()
    &&& forall|i: int|
        0 <= i < top.len() ==> v(#[trigger] hot[i]) * (temp_milli as real) == 1000real * v(
            S::of_bits_spec(top[i].0),
        )
}

/// The random number `x`, cut to 53 bits and taken as a fraction, falls on entry `n`: the
/// exponentials before the entry stay below that fraction of the sum of all, and with the
/// entry they reach it.
pub open spec fn falls_on<S: Analytic>(v: spec_fn(S) -> real, hot: Seq<S>, x: u64, n: int) -> bool {
    let all = series(hot.len() as int, |j: int| v(hot[j].exp_spec()));
    let part = (x as int / 2048) as real * all;
    &&& n > 0 ==> series(n, |j: int| v(hot[j].exp_spec())) * 0x20_0000_0000_0000real < part
    &&& part <= series(n + 1, |j: int| v(hot[j].exp_spec())) * 0x20_0000_0000_0000real
}

/// Of the best scores, the one is drawn at which the cumulated exponentials of the
/// scores over the temperature, taken as parts of their sum, first reach the random
/// fraction: each token is drawn for a part of the fractions that is its share.
#[verifier::rlimit(40)]
pub proof fn tokens_are_drawn_by_their_shares<S: Analytic>(
    v: spec_fn(S) -> real,
    top: Seq<(u32, u32)>,
    temp_milli: u32,
    hot: Seq<S>,
    x: u64,
)
    requires
        is_ideal(v),
        0 < temp_milli,
        0 < top.len(),
        are_hot(v, top, temp_milli, hot),
    ensures
        ({
            let n = drawn(
                shares_of(heats(top, temperature::<S>(temp_milli))),
                fraction::<S>(x),
                0,
            );
            0 <= n < top.len() && falls_on(v, hot, x, n)
        }),
{
    let len = top.len() as int;
    let h = heats(top, temperature::<S>(temp_milli));
    let shares = shares_of(h);
    let r = fraction::<S>(x);
    let n = drawn(shares, r, 0);
    let e = |j: int| v(hot[j].exp_spec());
    let all = series(len, e);
    heats_are_in_proportion(v, top, temp_milli, hot);
    assert forall|j: int| 0 <= j < len implies #[trigger] e(j) > 0real by {}
    lemma_series_positive(len, e);
    let c = v(hot[0].exp_spec());
    let g = |j: int| v(h[j]);
    assert forall|j: int| 0 <= j < len implies #[trigger] e(j) == g(j) * c by {
        assert(v(h[j]) * c == v(hot[j].exp_spec()));
    }
    lemma_series_factor(len, e, g, c);
    lemma_simple(c);
    assert(series(len, g) != 0real);
    shares_add_up_to_one(v, h);
    let p = |i: int| v(shares[i]);
    assert forall|j: int| 0 <= j < len implies #[trigger] e(j) == p(j) * all by {
        assert(v(shares[j]) * series(len, g) == v(h[j]));
        lemma_group(v(shares[j]), series(len, g), c);
        assert(e(j) == g(j) * c);
    }
    drawn_is_first(shares, r, 0);
    fraction_is_below_one(v, x);
    if n > 0 {
        assert(!r.at_most_spec(total_of(S::zero_spec(), shares, (n - 1) + 1)));
        total_adds_up(v, S::zero_spec(), shares, n);
        lemma_series_same(n, values_in(v, shares), p);
        lemma_series_factor(n, e, p, all);
        lemma_keeps_order(series(n, p), v(r), all);
    }
    total_adds_up(v, S::zero_spec(), shares, n + 1);
    lemma_series_same(n + 1, values_in(v, shares), p);
    lemma_series_factor(n + 1, e, p, all);
    lemma_keeps_order(v(r), series(n + 1, p), all);
    let (f, k) = (v(r), (x as int / 2048) as real);
    assert(f * 0x20_0000_0000_0000real == k);
    lemma_group(0x20_0000_0000_0000real, f, all);
    assert(k * all == 0x20_0000_0000_0000real * (f * all));
    lemma_series_same(n, e, |j: int| v(hot[j].exp_spec()));
    lemma_series_same(n + 1, e, |j: int| v(hot[j].exp_spec()));
    lemma_series_same(len, e, |j: int| v(hot[j].exp_spec()));
}

} // verus!
