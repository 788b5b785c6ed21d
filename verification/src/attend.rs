//! What one query head takes from the cache: the values of the positions that it
//! sees, weighted by a softmax of its scores.
use crate::analytic::Analytic;
use crate::attention::{
    cache_place, cached, first_seen, head_mix, head_mix_in_order, head_scores, head_scores_in_order,
    kv_head, lane_sums, lanes_total, mixed, mixed_in_order, shared_head, window_start, MAXSEQ,
};
use crate::config::Cfg;
use crate::dense::products;
use crate::ideal::is_ideal;
use crate::ideal_attend::{
    head_scale_undoes_the_width, head_takes_the_mean, head_with_sink_takes_the_mean, is_mean,
};
use crate::softmax::{exps_below, exps_of, greatest, greatest_of, total, total_of, LOWEST};
use vstd::prelude::*;

verus! {

/// What the scores are multiplied with: one over the root of a head's width.
pub open spec fn head_scale<S: Analytic>(hd: usize) -> S {
    S::of_int_spec(1).over_spec(S::of_int_spec(hd as i64).root_spec())
}

/// What the scores are multiplied with: one over the root of a head's width.
pub fn scale_for<S: Analytic>(hd: usize) -> (r: S)
    ensures
        r == head_scale::<S>(hd),
        forall|v: spec_fn(S) -> real| #[trigger]
            is_ideal(v) && 0 < hd <= i64::MAX ==> v(r) > 0real && v(r) * v(r) * (hd as real)
                == 1real,
{
    proof {
        assert forall|v: spec_fn(S) -> real| #[trigger] is_ideal(v) && 0 < hd <= i64::MAX implies v(
            head_scale::<S>(hd),
        ) > 0real && v(head_scale::<S>(hd)) * v(head_scale::<S>(hd)) * (hd as real) == 1real by {
            head_scale_undoes_the_width(v, hd);
        }
    }
    S::of_int(1).over(S::of_int(hd as i64).root())
}

// ------------------------------------------------------------------ with a sink

/// The scores of query head `h` against the keys at the `n` positions from `start`
/// on.
pub open spec fn scores_of<S: Analytic>(
    c: Cfg,
    h: int,
    q: Seq<S>,
    kc: Seq<S>,
    base: int,
    start: int,
    n: int,
) -> Seq<S> {
    let kvh = shared_head(h, c.nh as int, c.nkv as int);
    Seq::new(
        n as nat,
        |i: int|
            lanes_total(
                lane_sums(
                    kc,
                    base + cache_place(start + i, kvh, c.nkv as int, c.hd as int),
                    q,
                    h * c.hd,
                    c.hd as int / 16,
                ),
            ).times_spec(head_scale(c.hd)),
    )
}

/// Number `j` of what query head `h` takes from the `n` positions from `start` on.
/// The sink has a part in the softmax and no value.
pub open spec fn taken_with_sink<S: Analytic>(
    c: Cfg,
    h: int,
    q: Seq<S>,
    kc: Seq<S>,
    vc: Seq<S>,
    base: int,
    start: int,
    n: int,
    sink: S,
    j: int,
) -> S {
    let scores = scores_of(c, h, q, kc, base, start, n);
    let top = greatest_of(sink, scores, n);
    let e = exps_of(scores, top);
    let sum = total_of(sink.minus_spec(top).exp_spec(), e, n);
    let kvh = shared_head(h, c.nh as int, c.nkv as int);
    mixed(vc, base, e, kvh, c.nkv as int, c.hd as int, start, j, n).times_spec(
        S::of_int_spec(1).over_spec(sum),
    )
}

/// What query head `h` of a layer takes from the caches, which start at `base`, at
/// position `pos`.
pub fn attend_with_sink<S: Analytic>(
    c: &Cfg,
    layer: usize,
    h: usize,
    q: &[S],
    kc: &[S],
    vc: &[S],
    base: usize,
    pos: usize,
    sink: S,
) -> (r: Vec<S>)
    requires
        c.is_sound(),
        c.hd % 16 == 0,
        layer < usize::MAX,
        h < c.nh,
        (h + 1) * c.hd <= q.len(),
        pos < MAXSEQ,
        cached(kc.len() as int, base as int, pos as int, c.nkv as int, c.hd as int),
        cached(vc.len() as int, base as int, pos as int, c.nkv as int, c.hd as int),
    ensures
        r@.len() == c.hd,
        forall|j: int|
            0 <= j < c.hd ==> #[trigger] r@[j] == ({
                let start = first_seen(layer as int, pos as int, c.swa as int);
                taken_with_sink(
                    *c,
                    h as int,
                    q@,
                    kc@,
                    vc@,
                    base as int,
                    start,
                    pos - start + 1,
                    sink,
                    j,
                )
            }),
        c.hd <= i64::MAX ==> forall|v: spec_fn(S) -> real| #[trigger]
            is_ideal(v) ==> exists|s: Seq<S>, scale: real| #[trigger]
                is_mean(
                    v,
                    *c,
                    h as int,
                    q@,
                    kc@,
                    vc@,
                    base as int,
                    first_seen(layer as int, pos as int, c.swa as int),
                    pos - first_seen(layer as int, pos as int, c.swa as int) + 1,
                    v(sink.exp_spec()),
                    s,
                    scale,
                    r@,
                ),
{
    let kvh: usize = kv_head(h, c.nh, c.nkv);
    let start: usize = window_start(layer, pos, c.swa);
    let scores: Vec<S> = head_scores(
        kc,
        base,
        q,
        h,
        kvh,
        c.nkv,
        c.hd,
        start,
        pos,
        scale_for(c.hd),
    );
    assert(scores@ =~= scores_of(
        *c,
        h as int,
        q@,
        kc@,
        base as int,
        start as int,
        pos - start + 1,
    ));
    let top: S = greatest(sink, scores.as_slice());
    let e: Vec<S> = exps_below(scores.as_slice(), top);
    let sum: S = total(sink.minus(top).exp(), e.as_slice());
    let r: Vec<S> = head_mix(
        vc,
        base,
        e.as_slice(),
        kvh,
        c.nkv,
        c.hd,
        start,
        pos,
        S::of_int(1).over(sum),
    );
    proof {
        if c.hd <= i64::MAX {
            let (first, seen) = (start as int, pos - start + 1);
            assert forall|v: spec_fn(S) -> real| #[trigger] is_ideal(v) implies exists|
                s: Seq<S>,
                scale: real,
            | #[trigger]
                is_mean(
                    v,
                    *c,
                    h as int,
                    q@,
                    kc@,
                    vc@,
                    base as int,
                    first,
                    seen,
                    v(sink.exp_spec()),
                    s,
                    scale,
                    r@,
                ) by {
                head_with_sink_takes_the_mean(
                    v,
                    *c,
                    h as int,
                    q@,
                    kc@,
                    vc@,
                    base as int,
                    first,
                    seen,
                    sink,
                    r@,
                );
            }
        }
    }
    r
}

// --------------------------------------------------------------------- in order

/// The scores of query head `h` against the keys at the first `n` positions, each
/// summed in order.
pub open spec fn plain_scores_of<S: Analytic>(
    c: Cfg,
    h: int,
    q: Seq<S>,
    kc: Seq<S>,
    base: int,
    n: int,
) -> Seq<S> {
    let kvh = shared_head(h, c.nh as int, c.nkv as int);
    Seq::new(
        n as nat,
        |t: int|
            products(
                S::zero_spec(),
                kc,
                base + cache_place(t, kvh, c.nkv as int, c.hd as int),
                q,
                h * c.hd,
                c.hd as int,
            ).times_spec(head_scale(c.hd)),
    )
}

/// Number `j` of what query head `h` takes from the first `n` positions.
pub open spec fn taken<S: Analytic>(
    c: Cfg,
    h: int,
    q: Seq<S>,
    kc: Seq<S>,
    vc: Seq<S>,
    base: int,
    n: int,
    j: int,
) -> S {
    let scores = plain_scores_of(c, h, q, kc, base, n);
    let top = greatest_of(S::of_bits_spec(LOWEST), scores, n);
    let e = exps_of(scores, top);
    let sum = total_of(S::zero_spec(), e, n);
    let kvh = shared_head(h, c.nh as int, c.nkv as int);
    mixed_in_order(vc, base, e, kvh, c.nkv as int, c.hd as int, j, n).over_spec(sum)
}

/// What query head `h` takes from the caches, which start at `base`, at position
/// `pos`: it sees all positions up to its own.
pub fn attend<S: Analytic>(
    c: &Cfg,
    h: usize,
    q: &[S],
    kc: &[S],
    vc: &[S],
    base: usize,
    pos: usize,
) -> (r: Vec<S>)
    requires
        c.is_sound(),
        h < c.nh,
        (h + 1) * c.hd <= q.len(),
        pos < MAXSEQ,
        cached(kc.len() as int, base as int, pos as int, c.nkv as int, c.hd as int),
        cached(vc.len() as int, base as int, pos as int, c.nkv as int, c.hd as int),
    ensures
        r@.len() == c.hd,
        forall|j: int|
            0 <= j < c.hd ==> #[trigger] r@[j] == taken(
                *c,
                h as int,
                q@,
                kc@,
                vc@,
                base as int,
                pos + 1,
                j,
            ),
        c.hd <= i64::MAX ==> forall|v: spec_fn(S) -> real| #[trigger]
            is_ideal(v) ==> exists|s: Seq<S>, scale: real| #[trigger]
                is_mean(
                    v,
                    *c,
                    h as int,
                    q@,
                    kc@,
                    vc@,
                    base as int,
                    0,
                    pos + 1,
                    0real,
                    s,
                    scale,
                    r@,
                ),
{
    let kvh: usize = kv_head(h, c.nh, c.nkv);
    let scores: Vec<S> = head_scores_in_order(
        kc,
        base,
        q,
        h,
        kvh,
        c.nkv,
        c.hd,
        pos,
        scale_for(c.hd),
    );
    assert(scores@ =~= plain_scores_of(*c, h as int, q@, kc@, base as int, pos + 1));
    let top: S = greatest(S::of_bits(LOWEST), scores.as_slice());
    let e: Vec<S> = exps_below(scores.as_slice(), top);
    let sum: S = total(S::zero(), e.as_slice());
    let values: Vec<S> = head_mix_in_order(vc, base, e.as_slice(), kvh, c.nkv, c.hd, pos);
    let mut out: Vec<S> = Vec::new();
    for j in 0..c.hd
        invariant
            values@.len() == c.hd,
            sum == total_of(S::zero_spec(), e@, pos + 1),
            forall|i: int|
                0 <= i < c.hd ==> #[trigger] values@[i] == mixed_in_order(
                    vc@,
                    base as int,
                    e@,
                    kvh as int,
                    c.nkv as int,
                    c.hd as int,
                    i,
                    pos + 1,
                ),
            out@.len() == j,
            forall|i: int| 0 <= i < j ==> #[trigger] out@[i] == values@[i].over_spec(sum),
    {
        out.push(values[j].over(sum));
    }
    proof {
        if c.hd <= i64::MAX {
            assert forall|v: spec_fn(S) -> real| #[trigger] is_ideal(v) implies exists|
                s: Seq<S>,
                scale: real,
            | #[trigger]
                is_mean(
                    v,
                    *c,
                    h as int,
                    q@,
                    kc@,
                    vc@,
                    base as int,
                    0,
                    pos + 1,
                    0real,
                    s,
                    scale,
                    out@,
                ) by {
                head_takes_the_mean(
                    v,
                    *c,
                    h as int,
                    q@,
                    kc@,
                    vc@,
                    base as int,
                    pos + 1,
                    out@,
                );
            }
        }
    }
    out
}

} // verus!
