//! Attention over the cached keys and values: where a head's numbers stand in a
//! cache, which positions a layer looks at, and the sums over them.
use crate::dense::{add_products, products};
use crate::ideal::{adds, series};
use crate::ideal_dense::dot_is_the_inner_product;
use crate::scalar::Scalar;
use vstd::arithmetic::div_mod::{lemma_fundamental_div_mod, lemma_mod_bound};
use vstd::arithmetic::mul::{
    lemma_mul_inequality, lemma_mul_is_distributive_add_other_way, lemma_mul_nonnegative,
};
use vstd::prelude::*;

verus! {

/// The number of positions that a cache holds.
pub const MAXSEQ: usize = 4096;

// ------------------------------------------------------------------- positions

/// The first position that a layer looks at from position `pos`: layers with an
/// even number see a window of the last `window` positions, the others see all.
pub open spec fn first_seen(layer: int, pos: int, window: int) -> int {
    if layer % 2 == 0 && pos - (window - 1) > 0 {
        pos - (window - 1)
    } else {
        0
    }
}

/// The first position that a layer looks at.
pub fn window_start(layer: usize, pos: usize, window: usize) -> (r: usize)
    requires
        window > 0,
        layer < usize::MAX,
    ensures
        r == first_seen(layer as int, pos as int, window as int),
        r <= pos,
{
    if (layer + 1) % 2 != 0 {
        if pos > window - 1 {
            pos - (window - 1)
        } else {
            0
        }
    } else {
        0
    }
}

/// A layer looks at its own position, at no later one, and at as many as its
/// window allows and the text so far has.
pub proof fn window_is_full(layer: int, pos: int, window: int)
    requires
        0 <= layer,
        0 <= pos,
        0 < window,
    ensures
        0 <= first_seen(layer, pos, window) <= pos,
        layer % 2 == 1 ==> pos - first_seen(layer, pos, window) + 1 == pos + 1,
        layer % 2 == 0 ==> pos - first_seen(layer, pos, window) + 1 == if pos + 1 < window {
            pos + 1
        } else {
            window
        },
{
}

// ----------------------------------------------------------------------- heads

/// The key and value head that query head `h` shares with its group.
pub open spec fn shared_head(h: int, nh: int, nkv: int) -> int {
    h / (nh / nkv)
}

/// The key and value head of query head `h`.
pub fn kv_head(h: usize, nh: usize, nkv: usize) -> (r: usize)
    requires
        h < nh,
        0 < nkv,
        nh % nkv == 0,
    ensures
        r == shared_head(h as int, nh as int, nkv as int),
        r < nkv,
{
    proof {
        lemma_group(h as int, nh as int, nkv as int);
    }
    h / (nh / nkv)
}

proof fn lemma_group(h: int, nh: int, nkv: int)
    requires
        0 <= h < nh,
        0 < nkv,
        nh % nkv == 0,
    ensures
        0 < nh / nkv,
        nh == nkv * (nh / nkv),
        0 <= shared_head(h, nh, nkv) < nkv,
{
    let g = nh / nkv;
    lemma_fundamental_div_mod(nh, nkv);
    assert(g > 0) by (nonlinear_arith)
        requires
            nkv * g == nh,
            nh > 0,
            nkv > 0,
    ;
    lemma_fundamental_div_mod(h, g);
    lemma_mod_bound(h, g);
    let q = h / g;
    assert(0 <= q < nkv) by (nonlinear_arith)
        requires
            0 <= h < nkv * g,
            h == g * q + h % g,
            0 <= h % g < g,
            g > 0,
    ;
}

/// The query heads fall into `nkv` groups of the same size, in order: head `h` is
/// in group `k` exactly where it lies in the run of `nh / nkv` heads from
/// `k * (nh / nkv)` on.
pub proof fn heads_are_grouped(h: int, k: int, nh: int, nkv: int)
    requires
        0 <= h < nh,
        0 <= k < nkv,
        nh % nkv == 0,
    ensures
        shared_head(h, nh, nkv) == k <==> k * (nh / nkv) <= h < (k + 1) * (nh / nkv),
{
    lemma_group(h, nh, nkv);
    let g = nh / nkv;
    let q = h / g;
    lemma_fundamental_div_mod(h, g);
    lemma_mod_bound(h, g);
    if q == k {
        assert(k * g <= h < (k + 1) * g) by (nonlinear_arith)
            requires
                h == g * k + h % g,
                0 <= h % g < g,
        ;
    } else if q < k {
        assert(h < k * g) by (nonlinear_arith)
            requires
                h == g * q + h % g,
                h % g < g,
                q + 1 <= k,
                g > 0,
        ;
    } else {
        assert((k + 1) * g <= h) by (nonlinear_arith)
            requires
                h == g * q + h % g,
                0 <= h % g,
                k + 1 <= q,
                g > 0,
        ;
    }
}

// ----------------------------------------------------------------------- cache

/// Where the numbers of head `kvh` at position `t` start in a layer's cache.
pub open spec fn cache_place(t: int, kvh: int, nkv: int, hd: int) -> int {
    (t * nkv + kvh) * hd
}

/// The numbers of a head lie within the cache of `len` positions.
pub proof fn cache_place_fits(t: int, kvh: int, nkv: int, hd: int, len: int)
    requires
        0 <= t < len,
        0 <= kvh < nkv,
        0 <= hd,
    ensures
        0 <= t * nkv + kvh < len * nkv,
        0 <= cache_place(t, kvh, nkv, hd),
        cache_place(t, kvh, nkv, hd) + hd <= len * nkv * hd,
{
    let row = t * nkv + kvh;
    assert(0 <= row && row + 1 <= len * nkv) by (nonlinear_arith)
        requires
            row == t * nkv + kvh,
            0 <= t < len,
            0 <= kvh < nkv,
    ;
    assert(0 <= row * hd && row * hd + hd <= len * nkv * hd) by (nonlinear_arith)
        requires
            0 <= row,
            row + 1 <= len * nkv,
            0 <= hd,
    ;
}

/// Different positions or heads have no place in the cache in common.
pub proof fn cache_places_are_disjoint(
    t: int,
    kvh: int,
    u: int,
    other: int,
    nkv: int,
    hd: int,
    i: int,
    j: int,
)
    requires
        0 <= t,
        0 <= u,
        0 <= kvh < nkv,
        0 <= other < nkv,
        (t, kvh) != (u, other),
        0 <= i < hd,
        0 <= j < hd,
    ensures
        cache_place(t, kvh, nkv, hd) + i != cache_place(u, other, nkv, hd) + j,
{
    let a = t * nkv + kvh;
    let b = u * nkv + other;
    assert(a != b) by (nonlinear_arith)
        requires
            a == t * nkv + kvh,
            b == u * nkv + other,
            0 <= kvh < nkv,
            0 <= other < nkv,
            t != u || kvh != other,
    ;
    assert(a * hd + i != b * hd + j) by (nonlinear_arith)
        requires
            a != b,
            0 <= i < hd,
            0 <= j < hd,
    ;
}

/// Where the numbers of a head at a position start in the cache of all layers.
pub fn cache_at(layers: usize, layer: usize, t: usize, kvh: usize, nkv: usize, hd: usize) -> (r:
    usize)
    requires
        layer < layers,
        t < MAXSEQ,
        kvh < nkv,
        0 < hd,
        layers * (MAXSEQ * nkv * hd) <= usize::MAX,
    ensures
        r == layer * (MAXSEQ * nkv * hd) + cache_place(t as int, kvh as int, nkv as int, hd as int),
        r + hd <= layers * (MAXSEQ * nkv * hd),
{
    let ghost per = MAXSEQ * nkv * hd;
    proof {
        cache_place_fits(t as int, kvh as int, nkv as int, hd as int, MAXSEQ as int);
        lemma_mul_inequality(layer + 1, layers as int, per);
        lemma_mul_is_distributive_add_other_way(per, layer as int, 1);
        assert(layer * per >= 0) by (nonlinear_arith)
            requires
                per >= 0,
                layer >= 0,
        ;
        assert(MAXSEQ * nkv <= per) by (nonlinear_arith)
            requires
                per == MAXSEQ * nkv * hd,
                0 < hd,
        ;
        assert(t * nkv + kvh <= (t * nkv + kvh) * hd) by (nonlinear_arith)
            requires
                0 < hd,
                0 <= t * nkv + kvh,
        ;
        assert(t * nkv >= 0) by (nonlinear_arith);
    }
    let row: usize = t * nkv + kvh;
    layer * (MAXSEQ * nkv * hd) + row * hd
}

/// Writes the `hd` numbers of a head, which start at place `at` of `src`, into the
/// cache from place `to` on; the rest of the cache stays.
pub fn cache_write<S: Scalar>(cache: &mut [S], to: usize, src: &[S], at: usize, hd: usize)
    requires
        to + hd <= old(cache)@.len(),
        at + hd <= src.len(),
    ensures
        final(cache)@.len() == old(cache)@.len(),
        forall|i: int|
            0 <= i < old(cache)@.len() ==> #[trigger] final(cache)@[i] == if to <= i < to + hd {
                src@[at + i - to]
            } else {
                old(cache)@[i]
            },
{
    for k in 0..hd
        invariant
            to + hd <= cache@.len(),
            at + hd <= src.len(),
            cache@.len() == old(cache)@.len(),
            forall|i: int|
                0 <= i < cache@.len() ==> #[trigger] cache@[i] == if to <= i < to + k {
                    src@[at + i - to]
                } else {
                    old(cache)@[i]
                },
    {
        assert(cache@.len() == cache.len() && src@.len() == src.len());
        let v: S = src[at + k];
        cache[to + k] = v;
    }
}

// ---------------------------------------------------------------------- scores

/// One of sixteen running sums: the products at every sixteenth place from `lane`
/// on, each added in one step.
pub open spec fn lane_sum<S: Scalar>(
    k: Seq<S>,
    kat: int,
    q: Seq<S>,
    qat: int,
    lane: int,
    n: int,
) -> S
    decreases n,
{
    if n <= 0 {
        S::zero_spec()
    } else {
        lane_sum(k, kat, q, qat, lane, n - 1).fma_spec(
            k[kat + 16 * (n - 1) + lane],
            q[qat + 16 * (n - 1) + lane],
        )
    }
}

/// The four running sums of one column of lanes, added in pairs.
pub open spec fn column_sum<S: Scalar>(lanes: Seq<S>, c: int) -> S {
    lanes[c].plus_spec(lanes[4 + c]).plus_spec(lanes[8 + c].plus_spec(lanes[12 + c]))
}

/// Sixteen running sums added up: columns first, then the four columns in pairs.
pub open spec fn lanes_total<S: Scalar>(lanes: Seq<S>) -> S {
    column_sum(lanes, 0).plus_spec(column_sum(lanes, 1)).plus_spec(
        column_sum(lanes, 2).plus_spec(column_sum(lanes, 3)),
    )
}

/// All sixteen running sums after `n` steps.
pub open spec fn lane_sums<S: Scalar>(k: Seq<S>, kat: int, q: Seq<S>, qat: int, n: int) -> Seq<S> {
    Seq::new(16, |lane: int| lane_sum(k, kat, q, qat, lane, n))
}

/// The product of a key and a query of `hd` numbers, in sixteen running sums.
pub fn dot_lanes<S: Scalar>(k: &[S], kat: usize, q: &[S], qat: usize, hd: usize) -> (r: S)
    requires
        hd % 16 == 0,
        kat + hd <= k.len(),
        qat + hd <= q.len(),
    ensures
        r == lanes_total(lane_sums(k@, kat as int, q@, qat as int, hd as int / 16)),
        forall|v: spec_fn(S) -> real| #[trigger]
            adds(v) ==> v(r) == series(hd as int, |j: int| v(k@[kat + j]) * v(q@[qat + j])),
{
    let mut lanes: Vec<S> = Vec::new();
    for lane in 0..16
        invariant
            lanes@.len() == lane,
            forall|i: int| 0 <= i < lane ==> #[trigger] lanes@[i] == S::zero_spec(),
    {
        lanes.push(S::zero());
    }
    let steps: usize = hd / 16;
    for n in 0..steps
        invariant
            steps * 16 <= hd,
            kat + hd <= k.len(),
            qat + hd <= q.len(),
            lanes@.len() == 16,
            forall|i: int|
                0 <= i < 16 ==> #[trigger] lanes@[i] == lane_sum(
                    k@,
                    kat as int,
                    q@,
                    qat as int,
                    i,
                    n as int,
                ),
    {
        for lane in 0..16usize
            invariant
                n < steps,
                steps * 16 <= hd,
                kat + hd <= k.len(),
                qat + hd <= q.len(),
                lanes@.len() == 16,
                forall|i: int|
                    0 <= i < 16 ==> #[trigger] lanes@[i] == lane_sum(
                        k@,
                        kat as int,
                        q@,
                        qat as int,
                        i,
                        if i < lane {
                            n + 1
                        } else {
                            n as int
                        },
                    ),
        {
            assert(k@.len() == k.len() && q@.len() == q.len());
            let sum: S = lanes[lane].fma(k[kat + (16 * n + lane)], q[qat + (16 * n + lane)]);
            lanes.set(lane, sum);
        }
    }
    assert(lanes@ =~= lane_sums(k@, kat as int, q@, qat as int, hd as int / 16));
    proof {
        assert forall|v: spec_fn(S) -> real| #[trigger] adds(v) implies v(
            lanes_total(lane_sums(k@, kat as int, q@, qat as int, hd as int / 16)),
        ) == series(hd as int, |j: int| v(k@[kat + j]) * v(q@[qat + j])) by {
            dot_is_the_inner_product(v, k@, kat as int, q@, qat as int, hd as int);
        }
    }
    let c0: S = lanes[0].plus(lanes[4]).plus(lanes[8].plus(lanes[12]));
    let c1: S = lanes[1].plus(lanes[5]).plus(lanes[9].plus(lanes[13]));
    let c2: S = lanes[2].plus(lanes[6]).plus(lanes[10].plus(lanes[14]));
    let c3: S = lanes[3].plus(lanes[7]).plus(lanes[11].plus(lanes[15]));
    c0.plus(c1).plus(c2.plus(c3))
}

/// The keys or values of one layer at the positions up to `pos` stand in `cache`
/// from place `base` on.
pub open spec fn cached(cache_len: int, base: int, pos: int, nkv: int, hd: int) -> bool {
    0 <= base && base + (pos + 1) * nkv * hd <= cache_len
}

/// A layer's part of the caches of all layers lies inside them.
pub proof fn layers_are_cached(layers: int, layer: int, pos: int, nkv: int, hd: int)
    requires
        0 <= layer < layers,
        0 <= pos < MAXSEQ,
        0 <= nkv,
        0 <= hd,
    ensures
        ({
            let per = 4096 * nkv * hd;
            cached(layers * per, layer * per, pos, nkv, hd)
        }),
{
    let per = 4096 * nkv * hd;
    assert(0 <= per) by (nonlinear_arith)
        requires
            per == 4096 * nkv * hd,
            0 <= nkv,
            0 <= hd,
    ;
    lemma_mul_inequality(layer + 1, layers, per);
    lemma_mul_is_distributive_add_other_way(per, layer, 1);
    assert(0 <= layer * per) by (nonlinear_arith)
        requires
            0 <= layer,
            0 <= per,
    ;
    assert((pos + 1) * nkv * hd <= per) by (nonlinear_arith)
        requires
            per == 4096 * nkv * hd,
            0 <= pos + 1 <= 4096,
            0 <= nkv,
            0 <= hd,
    ;
}

/// A head's numbers at a seen position lie within the cache.
proof fn lemma_cached(cache_len: int, base: int, pos: int, nkv: int, hd: int, t: int, kvh: int)
    requires
        cached(cache_len, base, pos, nkv, hd),
        0 <= t <= pos,
        0 <= kvh < nkv,
        0 <= hd,
    ensures
        0 <= cache_place(t, kvh, nkv, hd),
        base + cache_place(t, kvh, nkv, hd) + hd <= cache_len,
        0 <= t * nkv,
        hd > 0 ==> t * nkv + kvh <= cache_place(t, kvh, nkv, hd),
{
    cache_place_fits(t, kvh, nkv, hd, pos + 1);
    assert(0 <= t * nkv) by (nonlinear_arith)
        requires
            0 <= t,
            0 < nkv,
    ;
    if hd > 0 {
        let row = t * nkv + kvh;
        assert(row <= row * hd) by (nonlinear_arith)
            requires
                0 < hd,
                0 <= row,
        ;
    }
}

/// The scores of query head `h` against the keys at positions `start ..= pos`,
/// each product in sixteen running sums and then times `scale`.
pub fn head_scores<S: Scalar>(
    kc: &[S],
    base: usize,
    q: &[S],
    h: usize,
    kvh: usize,
    nkv: usize,
    hd: usize,
    start: usize,
    pos: usize,
    scale: S,
) -> (r: Vec<S>)
    requires
        cached(kc.len() as int, base as int, pos as int, nkv as int, hd as int),
        kvh < nkv,
        0 < hd,
        hd % 16 == 0,
        (h + 1) * hd <= q.len(),
        start <= pos,
    ensures
        r@.len() == pos - start + 1,
        forall|i: int|
            0 <= i <= pos - start ==> #[trigger] r@[i] == lanes_total(
                lane_sums(
                    kc@,
                    base + cache_place(start + i, kvh as int, nkv as int, hd as int),
                    q@,
                    h * hd,
                    hd as int / 16,
                ),
            ).times_spec(scale),
{
    let mut out: Vec<S> = Vec::new();
    let mut t: usize = start;
    proof {
        lemma_head(h as int, hd as int, q@.len() as int);
    }
    assert(q@.len() == q.len() && kc@.len() == kc.len());
    let qat: usize = h * hd;
    loop
        invariant_except_break
            cached(kc@.len() as int, base as int, pos as int, nkv as int, hd as int),
            kc@.len() == kc.len(),
            kvh < nkv,
            0 < hd,
            hd % 16 == 0,
            qat == h * hd,
            qat + hd <= q.len(),
            start <= t <= pos,
            out@.len() == t - start,
            forall|i: int|
                0 <= i < t - start ==> #[trigger] out@[i] == lanes_total(
                    lane_sums(
                        kc@,
                        base + cache_place(start + i, kvh as int, nkv as int, hd as int),
                        q@,
                        qat as int,
                        hd as int / 16,
                    ),
                ).times_spec(scale),
        ensures
            out@.len() == pos - start + 1,
            forall|i: int|
                0 <= i <= pos - start ==> #[trigger] out@[i] == lanes_total(
                    lane_sums(
                        kc@,
                        base + cache_place(start + i, kvh as int, nkv as int, hd as int),
                        q@,
                        qat as int,
                        hd as int / 16,
                    ),
                ).times_spec(scale),
        decreases pos - t,
    {
        proof {
            lemma_cached(
                kc@.len() as int,
                base as int,
                pos as int,
                nkv as int,
                hd as int,
                t as int,
                kvh as int,
            );
        }
        let at: usize = base + (t * nkv + kvh) * hd;
        let dot: S = dot_lanes(kc, at, q, qat, hd);
        out.push(dot.times(scale));
        if t == pos {
            break;
        }
        t = t + 1;
    }
    out
}

/// A head's numbers lie within the vector of all heads.
proof fn lemma_head(h: int, hd: int, len: int)
    requires
        0 <= h,
        0 <= hd,
        (h + 1) * hd <= len,
    ensures
        0 <= h * hd,
        h * hd + hd <= len,
{
    lemma_mul_is_distributive_add_other_way(hd, h, 1);
    lemma_mul_nonnegative(h, hd);
}

/// The scores of query head `h` against the keys at positions `0 ..= pos`, each
/// product summed in order and then times `scale`.
pub fn head_scores_in_order<S: Scalar>(
    kc: &[S],
    base: usize,
    q: &[S],
    h: usize,
    kvh: usize,
    nkv: usize,
    hd: usize,
    pos: usize,
    scale: S,
) -> (r: Vec<S>)
    requires
        cached(kc.len() as int, base as int, pos as int, nkv as int, hd as int),
        kvh < nkv,
        0 < hd,
        (h + 1) * hd <= q.len(),
        pos < usize::MAX,
    ensures
        r@.len() == pos + 1,
        forall|t: int|
            0 <= t <= pos ==> #[trigger] r@[t] == products(
                S::zero_spec(),
                kc@,
                base + cache_place(t, kvh as int, nkv as int, hd as int),
                q@,
                h * hd,
                hd as int,
            ).times_spec(scale),
{
    let mut out: Vec<S> = Vec::new();
    proof {
        lemma_head(h as int, hd as int, q@.len() as int);
    }
    assert(q@.len() == q.len() && kc@.len() == kc.len());
    let qat: usize = h * hd;
    for t in 0..pos + 1
        invariant
            cached(kc@.len() as int, base as int, pos as int, nkv as int, hd as int),
            kc@.len() == kc.len(),
            kvh < nkv,
            0 < hd,
            pos < usize::MAX,
            qat == h * hd,
            qat + hd <= q.len(),
            out@.len() == t,
            forall|i: int|
                0 <= i < t ==> #[trigger] out@[i] == products(
                    S::zero_spec(),
                    kc@,
                    base + cache_place(i, kvh as int, nkv as int, hd as int),
                    q@,
                    qat as int,
                    hd as int,
                ).times_spec(scale),
    {
        proof {
            lemma_cached(
                kc@.len() as int,
                base as int,
                pos as int,
                nkv as int,
                hd as int,
                t as int,
                kvh as int,
            );
        }
        let at: usize = base + (t * nkv + kvh) * hd;
        let dot: S = add_products(S::zero(), kc, at, q, qat, hd);
        out.push(dot.times(scale));
    }
    out
}

// ------------------------------------------------------------------------- mix

/// Number `j` of a head's values, weighted and summed over `n` positions from
/// `start` on, each product added in one step.
pub open spec fn mixed<S: Scalar>(
    vc: Seq<S>,
    base: int,
    weights: Seq<S>,
    kvh: int,
    nkv: int,
    hd: int,
    start: int,
    j: int,
    n: int,
) -> S
    decreases n,
{
    if n <= 0 {
        S::zero_spec()
    } else {
        mixed(vc, base, weights, kvh, nkv, hd, start, j, n - 1).fma_spec(
            vc[base + cache_place(start + n - 1, kvh, nkv, hd) + j],
            weights[n - 1],
        )
    }
}

/// The values at positions `start ..= pos`, weighted and summed, and then times
/// `inv`.
pub fn head_mix<S: Scalar>(
    vc: &[S],
    base: usize,
    weights: &[S],
    kvh: usize,
    nkv: usize,
    hd: usize,
    start: usize,
    pos: usize,
    inv: S,
) -> (r: Vec<S>)
    requires
        cached(vc.len() as int, base as int, pos as int, nkv as int, hd as int),
        kvh < nkv,
        start <= pos,
        weights.len() == pos - start + 1,
    ensures
        r@.len() == hd,
        forall|j: int|
            0 <= j < hd ==> #[trigger] r@[j] == mixed(
                vc@,
                base as int,
                weights@,
                kvh as int,
                nkv as int,
                hd as int,
                start as int,
                j,
                pos - start + 1,
            ).times_spec(inv),
{
    assert(weights@.len() == weights.len() && vc@.len() == vc.len());
    let count: usize = weights.len();
    let mut out: Vec<S> = Vec::new();
    for j in 0..hd
        invariant
            cached(vc@.len() as int, base as int, pos as int, nkv as int, hd as int),
            vc@.len() == vc.len(),
            kvh < nkv,
            start <= pos,
            weights@.len() == weights.len(),
            count == weights@.len(),
            count == pos - start + 1,
            out@.len() == j,
            forall|i: int|
                0 <= i < j ==> #[trigger] out@[i] == mixed(
                    vc@,
                    base as int,
                    weights@,
                    kvh as int,
                    nkv as int,
                    hd as int,
                    start as int,
                    i,
                    count as int,
                ).times_spec(inv),
    {
        let mut sum: S = S::zero();
        for n in 0..count
            invariant
                j < hd,
                cached(vc@.len() as int, base as int, pos as int, nkv as int, hd as int),
                vc@.len() == vc.len(),
                kvh < nkv,
                start <= pos,
                weights@.len() == weights.len(),
                count == weights@.len(),
                count == pos - start + 1,
                sum == mixed(
                    vc@,
                    base as int,
                    weights@,
                    kvh as int,
                    nkv as int,
                    hd as int,
                    start as int,
                    j as int,
                    n as int,
                ),
        {
            proof {
                lemma_cached(
                    vc@.len() as int,
                    base as int,
                    pos as int,
                    nkv as int,
                    hd as int,
                    start + n,
                    kvh as int,
                );
            }
            let at: usize = base + ((start + n) * nkv + kvh) * hd + j;
            sum = sum.fma(vc[at], weights[n]);
        }
        out.push(sum.times(inv));
    }
    out
}

/// Number `j` of a head's values, weighted and summed over the first `n`
/// positions, each product rounded before it is added.
pub open spec fn mixed_in_order<S: Scalar>(
    vc: Seq<S>,
    base: int,
    weights: Seq<S>,
    kvh: int,
    nkv: int,
    hd: int,
    j: int,
    n: int,
) -> S
    decreases n,
{
    if n <= 0 {
        S::zero_spec()
    } else {
        mixed_in_order(vc, base, weights, kvh, nkv, hd, j, n - 1).mul_plus_spec(
            weights[n - 1],
            vc[base + cache_place(n - 1, kvh, nkv, hd) + j],
        )
    }
}

/// The values at positions `0 ..= pos`, weighted and summed in order.
pub fn head_mix_in_order<S: Scalar>(
    vc: &[S],
    base: usize,
    weights: &[S],
    kvh: usize,
    nkv: usize,
    hd: usize,
    pos: usize,
) -> (r: Vec<S>)
    requires
        cached(vc.len() as int, base as int, pos as int, nkv as int, hd as int),
        kvh < nkv,
        weights.len() == pos + 1,
    ensures
        r@.len() == hd,
        forall|j: int|
            0 <= j < hd ==> #[trigger] r@[j] == mixed_in_order(
                vc@,
                base as int,
                weights@,
                kvh as int,
                nkv as int,
                hd as int,
                j,
                pos + 1,
            ),
{
    assert(weights@.len() == weights.len() && vc@.len() == vc.len());
    let count: usize = weights.len();
    let mut out: Vec<S> = Vec::new();
    for j in 0..hd
        invariant
            cached(vc@.len() as int, base as int, pos as int, nkv as int, hd as int),
            vc@.len() == vc.len(),
            kvh < nkv,
            weights@.len() == weights.len(),
            count == weights@.len(),
            count == pos + 1,
            out@.len() == j,
            forall|i: int|
                0 <= i < j ==> #[trigger] out@[i] == mixed_in_order(
                    vc@,
                    base as int,
                    weights@,
                    kvh as int,
                    nkv as int,
                    hd as int,
                    i,
                    count as int,
                ),
    {
        let mut sum: S = S::zero();
        for n in 0..count
            invariant
                j < hd,
                cached(vc@.len() as int, base as int, pos as int, nkv as int, hd as int),
                vc@.len() == vc.len(),
                kvh < nkv,
                weights@.len() == weights.len(),
                count == weights@.len(),
                count == pos + 1,
                sum == mixed_in_order(
                    vc@,
                    base as int,
                    weights@,
                    kvh as int,
                    nkv as int,
                    hd as int,
                    j as int,
                    n as int,
                ),
        {
            proof {
                lemma_cached(
                    vc@.len() as int,
                    base as int,
                    pos as int,
                    nkv as int,
                    hd as int,
                    n as int,
                    kvh as int,
                );
            }
            let at: usize = base + (n * nkv + kvh) * hd + j;
            sum = sum.mul_plus(weights[n], vc[at]);
        }
        out.push(sum);
    }
    out
}

} // verus!
