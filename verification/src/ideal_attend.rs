//! What a query head takes from the caches where nothing rounds: the mean of the
//! values of the positions that it sees, each counted by the exponential of its score.
use crate::algebra::{
    lemma_exchange, lemma_group, lemma_sign, lemma_simple, lemma_spread, lemma_swap,
};
use crate::analytic::Analytic;
use crate::attend::{head_scale, plain_scores_of, scores_of, taken, taken_with_sink};
use crate::attention::{lane_sums, lanes_total, mixed, mixed_in_order};
use crate::config::Cfg;
use crate::dense::products;
use crate::ideal::{is_ideal, lemma_series_factor, lemma_series_same, series};
use crate::ideal_dense::{dot_is_the_inner_product, pair_at, products_add_up};
use crate::ideal_softmax::{moved_powers, powers_in, total_adds_up, values_in};
use crate::softmax::{exps_of, greatest_of, total_of, LOWEST};
use vstd::prelude::*;

verus! {

/// Where number `j` of the head that query head `h` shares at position `t` stands in a
/// layer's cache, of which each position holds `nkv` heads of `hd` numbers: the query
/// heads share these in groups of the same size.
pub open spec fn shared_place(c: Cfg, base: int, h: int, t: int, j: int) -> int {
    base + (t * c.nkv + h / (c.nh as int / c.nkv as int)) * c.hd + j
}

/// The inner product of query head `h` and the key that it shares at position `t`.
pub open spec fn key_product<S>(
    v: spec_fn(S) -> real,
    c: Cfg,
    h: int,
    q: Seq<S>,
    kc: Seq<S>,
    base: int,
    t: int,
) -> real {
    series(c.hd as int, |j: int| v(kc[shared_place(c, base, h, t, j)]) * v(q[h * c.hd + j]))
}

/// The numbers `r` are the mean of the values at the `seen` positions from `first` on, each
/// counted by the exponential of its score, with `more` counted in that has no value. The
/// scores `s` are the inner products of query and keys times `scale`, of which the square
/// times the width of a head is one.
pub open spec fn is_mean<S: Analytic>(
    v: spec_fn(S) -> real,
    c: Cfg,
    h: int,
    q: Seq<S>,
    kc: Seq<S>,
    vc: Seq<S>,
    base: int,
    first: int,
    seen: int,
    more: real,
    s: Seq<S>,
    scale: real,
    r: Seq<S>,
) -> bool {
    &&& scale > 0real
    &&& scale * scale * (c.hd as real) == 1real
    &&& s.len() == seen
    &&& forall|i: int|
        0 <= i < seen ==> v(#[trigger] s[i]) == key_product(v, c, h, q, kc, base, first + i) * scale
    &&& r.len() == c.hd
    &&& forall|j: int|
        0 <= j < c.hd ==> v(#[trigger] r[j]) * (more + series(seen, |i: int| v(s[i].exp_spec())))
            == series(
            seen,
            |i: int| v(vc[shared_place(c, base, h, first + i, j)]) * v(s[i].exp_spec()),
        )
}

/// What the scores are multiplied with is positive, and its square times the width of a
/// head is one.
pub proof fn head_scale_undoes_the_width<S: Analytic>(v: spec_fn(S) -> real, hd: usize)
    requires
        is_ideal(v),
        0 < hd <= i64::MAX,
    ensures
        v(head_scale::<S>(hd)) > 0real,
        v(head_scale::<S>(hd)) * v(head_scale::<S>(hd)) * (hd as real) == 1real,
{
    let wide = S::of_int_spec(hd as i64);
    let root = wide.root_spec();
    let one = S::of_int_spec(1);
    let (r, s, n) = (v(root), v(head_scale::<S>(hd)), hd as real);
    assert(v(wide) == n && n > 0real);
    assert(v(one) == 1real);
    assert(r >= 0real && r * r == n);
    lemma_simple(r);
    assert(r != 0real);
    assert(s * r == 1real);
    lemma_sign(s, r);
    lemma_exchange(s, s, r, r);
    lemma_simple(1real);
}

/// Each score of a query head is the inner product of the whole query and the whole
/// key, times one factor, of which the square times the width of a head is one.
pub proof fn scores_are_inner_products<S: Analytic>(
    v: spec_fn(S) -> real,
    c: Cfg,
    h: int,
    q: Seq<S>,
    kc: Seq<S>,
    base: int,
    start: int,
    n: int,
) -> (scale: real)
    requires
        is_ideal(v),
        0 < c.hd <= i64::MAX,
        c.hd % 16 == 0,
        0 <= n,
    ensures
        scale > 0real,
        scale * scale * (c.hd as real) == 1real,
        scores_of(c, h, q, kc, base, start, n).len() == n,
        forall|i: int|
            0 <= i < n ==> v(#[trigger] scores_of(c, h, q, kc, base, start, n)[i]) == key_product(
                v,
                c,
                h,
                q,
                kc,
                base,
                start + i,
            ) * scale,
{
    head_scale_undoes_the_width(v, c.hd);
    let scale = v(head_scale::<S>(c.hd));
    let s = scores_of(c, h, q, kc, base, start, n);
    let hd = c.hd as int;
    assert forall|i: int| 0 <= i < n implies v(#[trigger] s[i]) == key_product(
        v,
        c,
        h,
        q,
        kc,
        base,
        start + i,
    ) * scale by {
        let kat = base + ((start + i) * c.nkv + h / (c.nh as int / c.nkv as int)) * c.hd;
        dot_is_the_inner_product(v, kc, kat, q, h * c.hd, hd);
        assert(s[i] == lanes_total(lane_sums(kc, kat, q, h * c.hd, hd / 16)).times_spec(
            head_scale(c.hd),
        ));
        lemma_series_same(
            hd,
            |j: int| v(kc[kat + j]) * v(q[h * c.hd + j]),
            |j: int| v(kc[shared_place(c, base, h, start + i, j)]) * v(q[h * c.hd + j]),
        );
    }
    scale
}

/// The scores that are summed in order are the same products, times the same factor.
pub proof fn plain_scores_are_inner_products<S: Analytic>(
    v: spec_fn(S) -> real,
    c: Cfg,
    h: int,
    q: Seq<S>,
    kc: Seq<S>,
    base: int,
    n: int,
) -> (scale: real)
    requires
        is_ideal(v),
        0 < c.hd <= i64::MAX,
        0 <= n,
    ensures
        scale > 0real,
        scale * scale * (c.hd as real) == 1real,
        plain_scores_of(c, h, q, kc, base, n).len() == n,
        forall|t: int|
            0 <= t < n ==> v(#[trigger] plain_scores_of(c, h, q, kc, base, n)[t]) == key_product(
                v,
                c,
                h,
                q,
                kc,
                base,
                t,
            ) * scale,
{
    head_scale_undoes_the_width(v, c.hd);
    let scale = v(head_scale::<S>(c.hd));
    let s = plain_scores_of(c, h, q, kc, base, n);
    let hd = c.hd as int;
    assert forall|t: int| 0 <= t < n implies v(#[trigger] s[t]) == key_product(
        v,
        c,
        h,
        q,
        kc,
        base,
        t,
    ) * scale by {
        let kat = base + (t * c.nkv + h / (c.nh as int / c.nkv as int)) * c.hd;
        products_add_up(v, S::zero_spec(), kc, kat, q, h * c.hd, hd);
        assert(s[t] == products(S::zero_spec(), kc, kat, q, h * c.hd, hd).times_spec(
            head_scale(c.hd),
        ));
        lemma_series_same(
            hd,
            pair_at(v, kc, kat, q, h * c.hd),
            |j: int| v(kc[shared_place(c, base, h, t, j)]) * v(q[h * c.hd + j]),
        );
    }
    scale
}

/// The values that a head takes come to their weighted sum.
proof fn lemma_mixed<S: Analytic>(
    v: spec_fn(S) -> real,
    c: Cfg,
    h: int,
    vc: Seq<S>,
    base: int,
    w: Seq<S>,
    start: int,
    j: int,
    n: int,
)
    requires
        is_ideal(v),
        0 <= n,
    ensures
        v(
            mixed(
                vc,
                base,
                w,
                h / (c.nh as int / c.nkv as int),
                c.nkv as int,
                c.hd as int,
                start,
                j,
                n,
            ),
        ) == series(n, |t: int| v(vc[shared_place(c, base, h, start + t, j)]) * v(w[t])),
    decreases n,
{
    let f = |t: int| v(vc[shared_place(c, base, h, start + t, j)]) * v(w[t]);
    if n > 0 {
        lemma_mixed(v, c, h, vc, base, w, start, j, n - 1);
        lemma_series_same(
            n - 1,
            |t: int| v(vc[shared_place(c, base, h, start + t, j)]) * v(w[t]),
            f,
        );
        assert(start + (n - 1) == start + n - 1);
        assert(f(n - 1) == v(vc[shared_place(c, base, h, start + n - 1, j)]) * v(w[n - 1]));
    }
}

proof fn lemma_mixed_in_order<S: Analytic>(
    v: spec_fn(S) -> real,
    c: Cfg,
    h: int,
    vc: Seq<S>,
    base: int,
    w: Seq<S>,
    j: int,
    n: int,
)
    requires
        is_ideal(v),
        0 <= n,
    ensures
        v(
            mixed_in_order(
                vc,
                base,
                w,
                h / (c.nh as int / c.nkv as int),
                c.nkv as int,
                c.hd as int,
                j,
                n,
            ),
        ) == series(n, |t: int| v(vc[shared_place(c, base, h, t, j)]) * v(w[t])),
    decreases n,
{
    let f = |t: int| v(vc[shared_place(c, base, h, t, j)]) * v(w[t]);
    if n > 0 {
        lemma_mixed_in_order(v, c, h, vc, base, w, j, n - 1);
        lemma_series_same(n - 1, |t: int| v(vc[shared_place(c, base, h, t, j)]) * v(w[t]), f);
        lemma_swap(v(w[n - 1]), v(vc[shared_place(c, base, h, n - 1, j)]));
        assert(f(n - 1) == v(vc[shared_place(c, base, h, n - 1, j)]) * v(w[n - 1]));
    }
}

/// What a query head takes is the mean of the values at the positions that it sees, each
/// counted by the exponential of its score, and the sink counted in with no value.
#[verifier::rlimit(40)]
pub proof fn taken_with_sink_is_the_mean<S: Analytic>(
    v: spec_fn(S) -> real,
    c: Cfg,
    h: int,
    q: Seq<S>,
    kc: Seq<S>,
    vc: Seq<S>,
    base: int,
    start: int,
    n: int,
    sink: S,
    j: int,
)
    requires
        is_ideal(v),
        0 <= n,
    ensures
        ({
            let s = scores_of(c, h, q, kc, base, start, n);
            v(taken_with_sink(c, h, q, kc, vc, base, start, n, sink, j)) * (v(sink.exp_spec())
                + series(n, |t: int| v(s[t].exp_spec()))) == series(
                n,
                |t: int| v(vc[shared_place(c, base, h, start + t, j)]) * v(s[t].exp_spec()),
            )
        }),
{
    let s = scores_of(c, h, q, kc, base, start, n);
    let top = greatest_of(sink, s, n);
    let e = exps_of(s, top);
    let below = sink.minus_spec(top).exp_spec();
    let sum = total_of(below, e, n);
    let one = S::of_int_spec(1);
    let inv = one.over_spec(sum);
    let k = v(top.exp_spec());
    moved_powers(v, s, top, n);
    total_adds_up(v, below, e, n);
    lemma_mixed(v, c, h, vc, base, e, start, j, n);
    let f = |t: int| v(vc[shared_place(c, base, h, start + t, j)]) * v(e[t]);
    let g = |t: int| v(vc[shared_place(c, base, h, start + t, j)]) * v(s[t].exp_spec());
    let m = series(n, f);
    assert forall|t: int| 0 <= t < n implies #[trigger] g(t) == f(t) * k by {
        assert(v(e[t]) * k == v(s[t].exp_spec()));
        lemma_group(v(vc[shared_place(c, base, h, start + t, j)]), v(e[t]), k);
    }
    lemma_series_factor(n, g, f, k);
    lemma_series_same(
        n,
        |t: int| v(vc[shared_place(c, base, h, start + t, j)]) * v(e[t]),
        f,
    );
    lemma_series_same(n, powers_in(v, s), |t: int| v(s[t].exp_spec()));
    let all = v(sink.exp_spec()) + series(n, |t: int| v(s[t].exp_spec()));
    let part = series(n, values_in(v, e));
    assert(v(below) * k == v(sink.exp_spec()));
    lemma_spread(v(below), part, k);
    assert(v(sum) * k == all);
    assert(v(below) > 0real);
    assert(part >= 0real) by {
        if n == 0 {
            assert(part == 0real);
        }
    }
    assert(v(sum) > 0real);
    assert(v(one) == 1real);
    assert(v(inv) * v(sum) == 1real);
    let r = v(taken_with_sink(c, h, q, kc, vc, base, start, n, sink, j));
    assert(r == m * v(inv));
    lemma_group(m, v(inv), v(sum));
    lemma_simple(m);
    assert(r * v(sum) == m);
    lemma_group(r, v(sum), k);
}

/// Without a sink too, what a query head takes is the mean of the values at the
/// positions up to its own, each counted by the exponential of its score.
#[verifier::rlimit(40)]
pub proof fn taken_is_the_mean<S: Analytic>(
    v: spec_fn(S) -> real,
    c: Cfg,
    h: int,
    q: Seq<S>,
    kc: Seq<S>,
    vc: Seq<S>,
    base: int,
    n: int,
    j: int,
)
    requires
        is_ideal(v),
        0 < n,
    ensures
        ({
            let s = plain_scores_of(c, h, q, kc, base, n);
            v(taken(c, h, q, kc, vc, base, n, j)) * series(n, |t: int| v(s[t].exp_spec()))
                == series(
                n,
                |t: int| v(vc[shared_place(c, base, h, t, j)]) * v(s[t].exp_spec()),
            )
        }),
{
    let s = plain_scores_of(c, h, q, kc, base, n);
    let top = greatest_of(S::of_bits_spec(LOWEST), s, n);
    let e = exps_of(s, top);
    let sum = total_of(S::zero_spec(), e, n);
    let k = v(top.exp_spec());
    moved_powers(v, s, top, n);
    total_adds_up(v, S::zero_spec(), e, n);
    lemma_mixed_in_order(v, c, h, vc, base, e, j, n);
    let f = |t: int| v(vc[shared_place(c, base, h, t, j)]) * v(e[t]);
    let g = |t: int| v(vc[shared_place(c, base, h, t, j)]) * v(s[t].exp_spec());
    let m = series(n, f);
    assert forall|t: int| 0 <= t < n implies #[trigger] g(t) == f(t) * k by {
        assert(v(e[t]) * k == v(s[t].exp_spec()));
        lemma_group(v(vc[shared_place(c, base, h, t, j)]), v(e[t]), k);
    }
    lemma_series_factor(n, g, f, k);
    lemma_series_same(n, |t: int| v(vc[shared_place(c, base, h, t, j)]) * v(e[t]), f);
    lemma_series_same(n, powers_in(v, s), |t: int| v(s[t].exp_spec()));
    assert(v(sum) > 0real);
    let r = v(taken(c, h, q, kc, vc, base, n, j));
    assert(r * v(sum) == m);
    lemma_group(r, v(sum), k);
}

/// All that a query head takes with a sink is such a mean.
pub proof fn head_with_sink_takes_the_mean<S: Analytic>(
    v: spec_fn(S) -> real,
    c: Cfg,
    h: int,
    q: Seq<S>,
    kc: Seq<S>,
    vc: Seq<S>,
    base: int,
    first: int,
    seen: int,
    sink: S,
    r: Seq<S>,
)
    requires
        is_ideal(v),
        0 < c.hd <= i64::MAX,
        c.hd % 16 == 0,
        0 <= seen,
        r.len() == c.hd,
        forall|j: int|
            0 <= j < c.hd ==> #[trigger] r[j] == taken_with_sink(
                c,
                h,
                q,
                kc,
                vc,
                base,
                first,
                seen,
                sink,
                j,
            ),
    ensures
        exists|s: Seq<S>, scale: real| #[trigger]
            is_mean(
                v,
                c,
                h,
                q,
                kc,
                vc,
                base,
                first,
                seen,
                v(sink.exp_spec()),
                s,
                scale,
                r,
            ),
{
    let scale = scores_are_inner_products(v, c, h, q, kc, base, first, seen);
    let s = scores_of(c, h, q, kc, base, first, seen);
    assert forall|j: int| 0 <= j < c.hd implies v(#[trigger] r[j]) * (v(sink.exp_spec()) + series(
        seen,
        |i: int| v(s[i].exp_spec()),
    )) == series(
        seen,
        |i: int| v(vc[shared_place(c, base, h, first + i, j)]) * v(s[i].exp_spec()),
    ) by {
        taken_with_sink_is_the_mean(v, c, h, q, kc, vc, base, first, seen, sink, j);
    }
    assert(is_mean(
        v,
        c,
        h,
        q,
        kc,
        vc,
        base,
        first,
        seen,
        v(sink.exp_spec()),
        s,
        scale,
        r,
    ));
}

/// And without a sink, with nothing counted in.
pub proof fn head_takes_the_mean<S: Analytic>(
    v: spec_fn(S) -> real,
    c: Cfg,
    h: int,
    q: Seq<S>,
    kc: Seq<S>,
    vc: Seq<S>,
    base: int,
    seen: int,
    r: Seq<S>,
)
    requires
        is_ideal(v),
        0 < c.hd <= i64::MAX,
        0 < seen,
        r.len() == c.hd,
        forall|j: int|
            0 <= j < c.hd ==> #[trigger] r[j] == taken(c, h, q, kc, vc, base, seen, j),
    ensures
        exists|s: Seq<S>, scale: real| #[trigger]
            is_mean(v, c, h, q, kc, vc, base, 0, seen, 0real, s, scale, r),
{
    let scale = plain_scores_are_inner_products(v, c, h, q, kc, base, seen);
    let s = plain_scores_of(c, h, q, kc, base, seen);
    assert forall|j: int| 0 <= j < c.hd implies v(#[trigger] r[j]) * (0real + series(
        seen,
        |i: int| v(s[i].exp_spec()),
    )) == series(
        seen,
        |i: int| v(vc[shared_place(c, base, h, 0 + i, j)]) * v(s[i].exp_spec()),
    ) by {
        taken_is_the_mean(v, c, h, q, kc, vc, base, seen, j);
        lemma_series_same(
            seen,
            |i: int| v(vc[shared_place(c, base, h, i, j)]) * v(s[i].exp_spec()),
            |i: int| v(vc[shared_place(c, base, h, 0 + i, j)]) * v(s[i].exp_spec()),
        );
    }
    assert(is_mean(v, c, h, q, kc, vc, base, 0, seen, 0real, s, scale, r));
}

} // verus!
