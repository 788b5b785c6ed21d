//! A batch of tokens of the model with an attention window, whose experts each
//! serve all the tokens that chose them.
//!
//! Choice `ei` of token `b` has slot `b * topk + ei`. Gate and up numbers of all
//! slots stand one slot after another, and so do the rows of the down projections.
use crate::activation::{clamped_gate, swiglu};
use crate::analytic::Analytic;
use crate::config::Cfg;
use crate::dense::add_scaled;
use crate::gptoss::{lemma_expert_quad, Layer};
use crate::quantize::{in_range, levels_of, quant_i8, scales_of};
use crate::routing::{
    batch_down_place, batch_item, batch_of, batch_place, tile_members, within_tile,
};
use crate::select::members;
use vstd::arithmetic::mul::{lemma_mul_inequality, lemma_mul_is_distributive_add_other_way};
use vstd::prelude::*;

verus! {

/// The groups are those of `bsz` tokens, and the active experts have groups.
pub open spec fn groups_fit(
    c: Cfg,
    active: Seq<usize>,
    groups: Seq<Vec<(usize, usize)>>,
    bsz: int,
) -> bool {
    &&& groups.len() == c.ne
    &&& forall|i: int| 0 <= i < active.len() ==> (#[trigger] active[i]) < c.ne
    &&& forall|e: int, i: int|
        #![trigger groups[e]@[i]]
        0 <= e < c.ne && 0 <= i < groups[e]@.len() ==> groups[e]@[i].0 < bsz && groups[e]@[i].1
            < c.topk
    &&& bsz * c.topk * (2 * c.d) <= usize::MAX
}

/// The members that item `it` of a tile serves: those of its expert.
pub open spec fn served(
    it: int,
    active: Seq<usize>,
    groups: Seq<Vec<(usize, usize)>>,
    d: int,
    t0: int,
    t1: int,
) -> Seq<(usize, usize)> {
    match batch_of(it, active, d) {
        Some((e, _)) => within_tile(groups[e]@, t0, t1, groups[e]@.len() as int),
        None => seq![],
    }
}

/// The members of a tile are members of the group.
proof fn lemma_tile_of_group(
    group: Seq<(usize, usize)>,
    t0: int,
    t1: int,
    n: int,
    bsz: int,
    topk: int,
)
    requires
        0 <= n <= group.len(),
        forall|i: int| 0 <= i < group.len() ==> (#[trigger] group[i]).0 < bsz && group[i].1 < topk,
    ensures
        forall|i: int|
            0 <= i < within_tile(group, t0, t1, n).len() ==> (#[trigger] within_tile(
                group,
                t0,
                t1,
                n,
            )[i]).0 < bsz && within_tile(group, t0, t1, n)[i].1 < topk,
    decreases n,
{
    if n > 0 {
        lemma_tile_of_group(group, t0, t1, n - 1, bsz, topk);
        let (rest, last) = (within_tile(group, t0, t1, n - 1), group[n - 1]);
        let all = within_tile(group, t0, t1, n);
        assert forall|i: int| 0 <= i < all.len() implies (#[trigger] all[i]).0 < bsz && all[i].1
            < topk by {
            if i < rest.len() {
                assert(all[i] == rest[i]);
            } else {
                assert(all[i] == last);
            }
        }
    }
}

/// A slot of one of `bsz` tokens has its room.
proof fn lemma_slot_room(bsz: int, b: int, topk: int, d: int)
    requires
        0 <= b < bsz,
        0 <= topk,
        0 <= d,
    ensures
        (b + 1) * topk <= bsz * topk,
        (b + 1) * topk * (2 * d) <= bsz * topk * (2 * d),
{
    lemma_mul_inequality(b + 1, bsz, topk);
    lemma_mul_inequality((b + 1) * topk, bsz * topk, 2 * d);
}

/// Four gate numbers and four up numbers of a slot. Gate numbers start at place
/// `at`, and the up numbers `c.d` places on.
pub struct GateUpQuad<S> {
    pub at: usize,
    pub gate: [S; 4],
    pub up: [S; 4],
}

/// Four numbers of the down projection of a slot, which start at place `at`.
pub struct DownQuad<S> {
    pub at: usize,
    pub values: [S; 4],
}

/// `o` is what quad `quad` of expert `e` gives for member `m`.
pub open spec fn is_gate_up<S: Analytic>(
    l: Layer<S>,
    c: Cfg,
    e: int,
    quad: int,
    m: (usize, usize),
    xq: Seq<Vec<i8>>,
    xs: Seq<Vec<S>>,
    pow: Seq<S>,
    o: GateUpQuad<S>,
) -> bool {
    let q = e * (c.d as int / 4) + quad;
    let (x, s) = (xq[m.0 as int]@, xs[m.0 as int]@);
    &&& o.at == (m.0 * c.topk + m.1) * 2 * c.d + 4 * quad
    &&& forall|i: int|
        0 <= i < 4 ==> #[trigger] o.gate@[i] == l.gate_up_value(c, true, q, i, x, s, pow)
    &&& forall|i: int|
        0 <= i < 4 ==> #[trigger] o.up@[i] == l.gate_up_value(c, false, q, i, x, s, pow)
}

/// `out` is what item `it` of the input projections of a batch gives for the tokens of a tile:
/// a quad for each of them that chose the item's expert.
pub open spec fn gives_gate_up<S: Analytic>(
    l: Layer<S>,
    c: Cfg,
    it: int,
    active: Seq<usize>,
    groups: Seq<Vec<(usize, usize)>>,
    tile: (usize, usize),
    xq: Seq<Vec<i8>>,
    xs: Seq<Vec<S>>,
    pow: Seq<S>,
    out: Seq<GateUpQuad<S>>,
) -> bool {
    let ms = served(it, active, groups, c.d as int, tile.0 as int, tile.1 as int);
    &&& out.len() == ms.len()
    &&& batch_of(it, active, c.d as int) matches Some((e, quad)) ==> forall|k: int|
        0 <= k < ms.len() ==> is_gate_up(l, c, e, quad, ms[k], xq, xs, pow, #[trigger] out[k])
}

/// What item `it` of the input projections of a batch gives for the tokens
/// `t0 .. t1`: a quad for each of them that chose the item's expert. `xq` and `xs`
/// hold the levels and scales of each token.
pub fn batch_gate_up<S: Analytic>(
    l: &Layer<S>,
    c: &Cfg,
    it: usize,
    active: &[usize],
    groups: &Vec<Vec<(usize, usize)>>,
    tile: (usize, usize),
    xq: &Vec<Vec<i8>>,
    xs: &Vec<Vec<S>>,
    pow: &[S],
) -> (out: Vec<GateUpQuad<S>>)
    requires
        c.is_sound(),
        l.fits(*c),
        it < active.len() * c.d,
        xq.len() == xs.len(),
        groups_fit(*c, active@, groups@, xq.len() as int),
        forall|b: int| 0 <= b < xq.len() ==> (#[trigger] xq@[b])@.len() >= c.d,
        forall|b: int| 0 <= b < xs.len() ==> (#[trigger] xs@[b])@.len() >= c.d / 32,
        pow.len() == 256,
    ensures
        gives_gate_up(*l, *c, it as int, active@, groups@, tile, xq@, xs@, pow@, out@),
{
    let mut out: Vec<GateUpQuad<S>> = Vec::new();
    match batch_item(it, active, c.d) {
        None => out,
        Some((e, quad)) => {
            let ghost bsz = xq@.len() as int;
            assert(e < c.ne) by {
                let i = choose|i: int| 0 <= i < active@.len() && active@[i] == e;
                assert(active@[i] < c.ne);
            }
            let ms: Vec<(usize, usize)> = tile_members(groups[e].as_slice(), tile.0, tile.1);
            proof {
                let group = groups@[e as int]@;
                lemma_tile_of_group(
                    group,
                    tile.0 as int,
                    tile.1 as int,
                    group.len() as int,
                    bsz,
                    c.topk as int,
                );
                lemma_expert_quad(*c, e as int, quad as int);
            }
            let q: usize = e * (c.d / 4) + quad;
            for k in 0..ms.len()
                invariant
                    c.is_sound(),
                    l.fits(*c),
                    bsz == xq@.len() == xs@.len(),
                    bsz * c.topk * (2 * c.d) <= usize::MAX,
                    forall|b: int| 0 <= b < xq.len() ==> (#[trigger] xq@[b])@.len() >= c.d,
                    forall|b: int| 0 <= b < xs.len() ==> (#[trigger] xs@[b])@.len() >= c.d / 32,
                    pow.len() == 256,
                    q == e * (c.d as int / 4) + quad,
                    q < c.ne * (c.d as int / 4),
                    quad < c.d / 4,
                    forall|i: int|
                        0 <= i < ms@.len() ==> (#[trigger] ms@[i]).0 < bsz && ms@[i].1 < c.topk,
                    out@.len() == k,
                    forall|i: int|
                        0 <= i < k ==> is_gate_up(
                            *l,
                            *c,
                            e as int,
                            quad as int,
                            ms@[i],
                            xq@,
                            xs@,
                            pow@,
                            #[trigger] out@[i],
                        ),
            {
                let (b, ei): (usize, usize) = ms[k];
                assert(ms@[k as int].0 < bsz && ms@[k as int].1 < c.topk);
                proof {
                    lemma_slot_room(bsz, b as int, c.topk as int, c.d as int);
                }
                let (x, s): (&[i8], &[S]) = (xq[b].as_slice(), xs[b].as_slice());
                let gate: [S; 4] = l.gate_up_quad(c, true, q, x, s, pow);
                let up: [S; 4] = l.gate_up_quad(c, false, q, x, s, pow);
                let at: usize = batch_place(c, b, ei, quad).1;
                out.push(GateUpQuad { at, gate, up });
            }
            out
        },
    }
}

/// The activations of a slot.
pub open spec fn slot_gates<S: Analytic>(gu: Seq<S>, slot: int, d: int) -> Seq<S> {
    Seq::new(
        d as nat,
        |k: int| clamped_gate(gu[slot * (2 * d) + k], gu[slot * (2 * d) + d + k]),
    )
}

/// The activations of a slot of a batch, in levels and scales.
pub fn batch_hidden<S: Analytic>(gu: &[S], slot: usize, d: usize) -> (r: (Vec<i8>, Vec<S>))
    requires
        (slot + 1) * (2 * d) <= gu.len(),
    ensures
        r.0@ == levels_of(slot_gates(gu@, slot as int, d as int)),
        r.1@ == scales_of(slot_gates(gu@, slot as int, d as int)),
        in_range(r.0@),
{
    let mut h: Vec<S> = Vec::new();
    proof {
        lemma_mul_is_distributive_add_other_way(2 * d, slot as int, 1);
        assert(0 <= slot * (2 * d)) by (nonlinear_arith)
            requires
                0 <= slot,
                0 <= d,
        ;
        assert(gu@.len() == gu.len());
    }
    let at: usize = slot * (2 * d);
    for k in 0..d
        invariant
            at == slot * (2 * d),
            at + 2 * d <= gu@.len(),
            gu@.len() == gu.len(),
            h@.len() == k,
            forall|i: int|
                0 <= i < k ==> #[trigger] h@[i] == slot_gates(gu@, slot as int, d as int)[i],
    {
        h.push(swiglu(gu[at + k], gu[at + d + k]));
    }
    assert(h@ =~= slot_gates(gu@, slot as int, d as int));
    quant_i8(h.as_slice())
}

/// `o` is what quad `quad` of the down projection of expert `e` gives for member `m`.
pub open spec fn is_down<S: Analytic>(
    l: Layer<S>,
    c: Cfg,
    e: int,
    quad: int,
    m: (usize, usize),
    hq: Seq<Vec<i8>>,
    hs: Seq<Vec<S>>,
    pow: Seq<S>,
    o: DownQuad<S>,
) -> bool {
    let slot = m.0 * c.topk + m.1;
    &&& o.at == slot * c.d + 4 * quad
    &&& forall|i: int|
        0 <= i < 4 ==> #[trigger] o.values@[i] == l.down_value(
            c,
            e * (c.d as int / 4) + quad,
            i,
            hq[slot]@,
            hs[slot]@,
            pow,
        )
}

/// `out` is what item `it` of the down projections of a batch gives for the tokens of a tile:
/// a quad for each of them that chose the item's expert.
pub open spec fn gives_down<S: Analytic>(
    l: Layer<S>,
    c: Cfg,
    it: int,
    active: Seq<usize>,
    groups: Seq<Vec<(usize, usize)>>,
    tile: (usize, usize),
    hq: Seq<Vec<i8>>,
    hs: Seq<Vec<S>>,
    pow: Seq<S>,
    out: Seq<DownQuad<S>>,
) -> bool {
    let ms = served(it, active, groups, c.d as int, tile.0 as int, tile.1 as int);
    &&& out.len() == ms.len()
    &&& batch_of(it, active, c.d as int) matches Some((e, quad)) ==> forall|k: int|
        0 <= k < ms.len() ==> is_down(l, c, e, quad, ms[k], hq, hs, pow, #[trigger] out[k])
}

/// What item `it` of the down projections of a batch gives for the tokens
/// `t0 .. t1`: a quad for each of them that chose the item's expert. `hq` and `hs`
/// hold the levels and scales of each slot.
pub fn batch_down<S: Analytic>(
    l: &Layer<S>,
    c: &Cfg,
    it: usize,
    active: &[usize],
    groups: &Vec<Vec<(usize, usize)>>,
    tile: (usize, usize),
    hq: &Vec<Vec<i8>>,
    hs: &Vec<Vec<S>>,
    pow: &[S],
    bsz: usize,
) -> (out: Vec<DownQuad<S>>)
    requires
        c.is_sound(),
        l.fits(*c),
        it < active.len() * c.d,
        groups_fit(*c, active@, groups@, bsz as int),
        hq.len() == bsz * c.topk,
        hs.len() == bsz * c.topk,
        forall|s: int| 0 <= s < hq.len() ==> (#[trigger] hq@[s])@.len() >= c.d,
        forall|s: int| 0 <= s < hs.len() ==> (#[trigger] hs@[s])@.len() >= c.d / 32,
        pow.len() == 256,
    ensures
        gives_down(*l, *c, it as int, active@, groups@, tile, hq@, hs@, pow@, out@),
{
    let mut out: Vec<DownQuad<S>> = Vec::new();
    match batch_item(it, active, c.d) {
        None => out,
        Some((e, quad)) => {
            assert(e < c.ne) by {
                let i = choose|i: int| 0 <= i < active@.len() && active@[i] == e;
                assert(active@[i] < c.ne);
            }
            let ms: Vec<(usize, usize)> = tile_members(groups[e].as_slice(), tile.0, tile.1);
            proof {
                let group = groups@[e as int]@;
                lemma_tile_of_group(
                    group,
                    tile.0 as int,
                    tile.1 as int,
                    group.len() as int,
                    bsz as int,
                    c.topk as int,
                );
            }
            for k in 0..ms.len()
                invariant
                    c.is_sound(),
                    l.fits(*c),
                    bsz * c.topk * (2 * c.d) <= usize::MAX,
                    hq@.len() == bsz * c.topk,
                    hs@.len() == bsz * c.topk,
                    forall|s: int| 0 <= s < hq.len() ==> (#[trigger] hq@[s])@.len() >= c.d,
                    forall|s: int| 0 <= s < hs.len() ==> (#[trigger] hs@[s])@.len() >= c.d / 32,
                    pow.len() == 256,
                    e < c.ne,
                    quad < c.d / 4,
                    forall|i: int|
                        0 <= i < ms@.len() ==> (#[trigger] ms@[i]).0 < bsz && ms@[i].1 < c.topk,
                    out@.len() == k,
                    forall|i: int|
                        0 <= i < k ==> is_down(
                            *l,
                            *c,
                            e as int,
                            quad as int,
                            ms@[i],
                            hq@,
                            hs@,
                            pow@,
                            #[trigger] out@[i],
                        ),
            {
                let (b, ei): (usize, usize) = ms[k];
                assert(ms@[k as int].0 < bsz && ms@[k as int].1 < c.topk);
                proof {
                    lemma_slot_room(bsz as int, b as int, c.topk as int, c.d as int);
                }
                let (slot, at): (usize, usize) = batch_down_place(c, b, ei, quad);
                let (h, s): (&[i8], &[S]) = (hq[slot].as_slice(), hs[slot].as_slice());
                let values: [S; 4] = l.down_quad(c, e, quad, h, s, pow);
                out.push(DownQuad { at, values });
            }
            out
        },
    }
}

/// Number `k` of the stream of token `b` after the first `n` of its choices: each
/// adds its weight times its row of the down projection.
pub open spec fn batch_stream<S: Analytic>(
    x: S,
    weights: Seq<S>,
    ffn: Seq<S>,
    b: int,
    topk: int,
    d: int,
    k: int,
    n: int,
) -> S
    decreases n,
{
    if n <= 0 {
        x
    } else {
        let slot = b * topk + n - 1;
        batch_stream(x, weights, ffn, b, topk, d, k, n - 1).mul_plus_spec(
            weights[slot],
            ffn[slot * d + k],
        )
    }
}

/// Adds what the experts of token `b` of a batch give to its stream.
pub fn batch_add<S: Analytic>(
    x: &mut [S],
    weights: &[S],
    ffn: &[S],
    b: usize,
    topk: usize,
    d: usize,
)
    requires
        old(x)@.len() == d,
        (b + 1) * topk <= weights.len(),
        (b + 1) * topk * d <= ffn.len(),
    ensures
        final(x)@.len() == d,
        forall|k: int|
            0 <= k < d ==> #[trigger] final(x)@[k] == batch_stream(
                old(x)@[k],
                weights@,
                ffn@,
                b as int,
                topk as int,
                d as int,
                k,
                topk as int,
            ),
{
    assert(weights@.len() == weights.len() && ffn@.len() == ffn.len());
    for n in 0..topk
        invariant
            x@.len() == d,
            old(x)@.len() == d,
            (b + 1) * topk <= weights@.len(),
            (b + 1) * topk * d <= ffn@.len(),
            weights@.len() == weights.len() && ffn@.len() == ffn.len(),
            forall|k: int|
                0 <= k < d ==> #[trigger] x@[k] == batch_stream(
                    old(x)@[k],
                    weights@,
                    ffn@,
                    b as int,
                    topk as int,
                    d as int,
                    k,
                    n as int,
                ),
    {
        proof {
            let slot = b * topk + n;
            lemma_mul_is_distributive_add_other_way(topk as int, b as int, 1);
            assert(0 <= b * topk) by (nonlinear_arith)
                requires
                    0 <= b,
                    0 <= topk,
            ;
            lemma_mul_inequality(slot + 1, (b + 1) * topk, d as int);
            lemma_mul_is_distributive_add_other_way(d as int, slot, 1);
            assert(0 <= slot * d) by (nonlinear_arith)
                requires
                    0 <= slot,
                    0 <= d,
            ;
        }
        let slot: usize = b * topk + n;
        let ghost before = x@;
        add_scaled(x, 0, weights[slot], ffn, slot * d, d);
        assert forall|k: int| 0 <= k < d implies #[trigger] x@[k] == batch_stream(
            old(x)@[k],
            weights@,
            ffn@,
            b as int,
            topk as int,
            d as int,
            k,
            n + 1,
        ) by {
            assert(before[k] == batch_stream(
                old(x)@[k],
                weights@,
                ffn@,
                b as int,
                topk as int,
                d as int,
                k,
                n as int,
            ));
        }
    }
}

// ------------------------------------------------------------------------ laws

/// The choices of `bsz` tokens, grouped by expert, are groups of these tokens, and each
/// member of a group has chosen the group's expert.
pub proof fn choices_fit_their_groups(chosen: Seq<usize>, topk: int, e: int, n: int, i: int)
    requires
        0 < topk <= usize::MAX,
        0 <= n <= chosen.len() <= usize::MAX,
        n % topk == 0,
        0 <= i < members(chosen, topk, e, n).len(),
    ensures
        members(chosen, topk, e, n)[i].0 < n / topk,
        members(chosen, topk, e, n)[i].1 < topk,
        ({
            let m = members(chosen, topk, e, n)[i];
            chosen[m.0 * topk + m.1] == e
        }),
{
    lemma_member(chosen, topk, e, n, i);
    let f = choose|f: int|
        0 <= f < n && chosen[f] == e && members(chosen, topk, e, n)[i] == #[trigger] choice(topk, f);
    vstd::arithmetic::div_mod::lemma_fundamental_div_mod(f, topk);
    vstd::arithmetic::div_mod::lemma_mod_bound(f, topk);
    vstd::arithmetic::div_mod::lemma_fundamental_div_mod(n, topk);
    vstd::arithmetic::div_mod::lemma_div_pos_is_pos(f, topk);
    assert(f / topk < n / topk) by (nonlinear_arith)
        requires
            f < n,
            n == topk * (n / topk),
            f == topk * (f / topk) + f % topk,
            0 <= f % topk,
            0 < topk,
    ;
    assert(f / topk <= f) by (nonlinear_arith)
        requires
            f == topk * (f / topk) + f % topk,
            0 <= f % topk,
            0 < topk,
            0 <= f / topk,
    ;
    assert((f / topk) * topk == topk * (f / topk)) by (nonlinear_arith);
}

/// The token and the place of choice `f`.
spec fn choice(topk: int, f: int) -> (usize, usize) {
    ((f / topk) as usize, (f % topk) as usize)
}

proof fn lemma_member(chosen: Seq<usize>, topk: int, e: int, n: int, i: int)
    requires
        0 <= n <= chosen.len(),
        0 <= i < members(chosen, topk, e, n).len(),
    ensures
        exists|f: int|
            0 <= f < n && chosen[f] == e && members(chosen, topk, e, n)[i] == #[trigger] choice(
                topk,
                f,
            ),
    decreases n,
{
    let rest = members(chosen, topk, e, n - 1);
    if i < rest.len() {
        lemma_member(chosen, topk, e, n - 1, i);
        let f = choose|f: int|
            0 <= f < n - 1 && chosen[f] == e && rest[i] == #[trigger] choice(topk, f);
        assert(members(chosen, topk, e, n)[i] == choice(topk, f));
    } else {
        assert(members(chosen, topk, e, n)[i] == choice(topk, n - 1));
    }
}

/// Where the rows of a token's slots are those of the experts that it chose, adding
/// them up is adding up the experts one after another.
pub proof fn lemma_rows_add_up<S: Analytic>(
    l: Layer<S>,
    c: Cfg,
    b: int,
    quad: int,
    i: int,
    x: S,
    top: Seq<usize>,
    weights: Seq<S>,
    ffn: Seq<S>,
    h: Seq<i8>,
    hs: Seq<S>,
    pow: Seq<S>,
    n: int,
)
    requires
        0 <= n <= c.topk,
        0 <= b,
        (b + 1) * c.topk <= weights.len(),
        forall|ei: int|
            #![trigger top[ei]]
            0 <= ei < n ==> ffn[(b * c.topk + ei) * c.d + (4 * quad + i)] == l.down_value(
                c,
                top[ei] * (c.d as int / 4) + quad,
                i,
                h.subrange(ei * c.d, ei * c.d + c.d),
                hs.subrange(ei * (c.d as int / 32), ei * (c.d as int / 32) + c.d as int / 32),
                pow,
            ),
    ensures
        batch_stream(x, weights, ffn, b, c.topk as int, c.d as int, 4 * quad + i, n)
            == l.stream_value(
            c,
            quad,
            i,
            x,
            top,
            weights.subrange(b * c.topk, b * c.topk + c.topk),
            h,
            hs,
            pow,
            n,
        ),
    decreases n,
{
    if n > 0 {
        lemma_rows_add_up(l, c, b, quad, i, x, top, weights, ffn, h, hs, pow, n - 1);
        let ei = n - 1;
        assert(top[ei] == top[n - 1]);
        lemma_mul_is_distributive_add_other_way(c.topk as int, b, 1);
        assert(0 <= b * c.topk) by (nonlinear_arith)
            requires
                0 <= b,
                0 <= c.topk,
        ;
        assert(weights.subrange(b * c.topk, b * c.topk + c.topk)[ei] == weights[b * c.topk + ei]);
    }
}

} // verus!
