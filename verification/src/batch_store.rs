//! What the items of a batch leave in its buffers, and why a token gets from a batch
//! what a pass of its own gives it.
use crate::activation::block_gates;
use crate::analytic::Analytic;
use crate::arith::lemma_div_mod_of;
use crate::batch::{
    batch_stream, choices_fit_their_groups, gives_down, gives_gate_up, is_down, is_gate_up,
    lemma_rows_add_up, served, slot_gates, DownQuad, GateUpQuad,
};
use crate::config::Cfg;
use crate::gptoss::Layer;
use crate::gptoss_pass::{block_at, gate_up_four};
use crate::quantize::{block_level, level_of, levels_of, peak, scale_of, scales_of};
use crate::routing::{
    batch_items_are_met_once, batch_of, gate_up_items_are_met_once, tile_keeps_its_tokens,
    within_tile,
};
use crate::select::{groups_partition_choices, members};
use vstd::arithmetic::div_mod::{lemma_fundamental_div_mod, lemma_mod_bound};
use vstd::arithmetic::mul::{lemma_mul_inequality, lemma_mul_is_distributive_add_other_way};
use vstd::prelude::*;

verus! {

// ------------------------------------------------------------ places and values

/// Place `x` is one of the four from place `at` on.
pub open spec fn in_four(at: int, x: int) -> bool {
    at <= x < at + 4
}

/// `groups` are the choices of `bsz` tokens by expert, and `active` the experts that
/// were chosen.
pub open spec fn is_grouped(
    c: Cfg,
    chosen: Seq<usize>,
    active: Seq<usize>,
    groups: Seq<Vec<(usize, usize)>>,
    bsz: int,
) -> bool {
    &&& 0 < c.topk
    &&& chosen.len() == bsz * c.topk <= usize::MAX
    &&& forall|f: int| 0 <= f < chosen.len() ==> (#[trigger] chosen[f]) < c.ne
    &&& groups.len() == c.ne
    &&& forall|e: int|
        0 <= e < c.ne ==> (#[trigger] groups[e])@ == members(
            chosen,
            c.topk as int,
            e,
            chosen.len() as int,
        )
    &&& forall|i: int, j: int| 0 <= i < j < active.len() ==> active[i] < active[j]
    &&& forall|i: int| 0 <= i < active.len() ==> (#[trigger] active[i]) < c.ne
    &&& forall|e: int|
        0 <= e < c.ne ==> (active.contains(e as usize) <==> (#[trigger] groups[e])@.len() > 0)
}

/// Place `x` among gate and up numbers of all slots: a row of the gating or of the
/// up projection of the expert that the slot's token chose.
pub open spec fn gate_up_at<S: Analytic>(
    l: Layer<S>,
    c: Cfg,
    chosen: Seq<usize>,
    xq: Seq<Vec<i8>>,
    xs: Seq<Vec<S>>,
    pow: Seq<S>,
    x: int,
) -> S {
    let (slot, rem) = (x / (2 * c.d), x % (2 * c.d));
    let (gate, k) = (
        rem < c.d,
        if rem < c.d {
            rem
        } else {
            rem - c.d
        },
    );
    let b = slot / (c.topk as int);
    l.gate_up_value(
        c,
        gate,
        chosen[slot] * (c.d as int / 4) + k / 4,
        k % 4,
        xq[b]@,
        xs[b]@,
        pow,
    )
}

/// Place `x` among the rows of the down projections of all slots: a row of the expert
/// that the slot's token chose.
pub open spec fn down_at<S: Analytic>(
    l: Layer<S>,
    c: Cfg,
    chosen: Seq<usize>,
    hq: Seq<Vec<i8>>,
    hs: Seq<Vec<S>>,
    pow: Seq<S>,
    x: int,
) -> S {
    let (slot, k) = (x / c.d as int, x % c.d as int);
    l.down_value(
        c,
        chosen[slot] * (c.d as int / 4) + k / 4,
        k % 4,
        hq[slot]@,
        hs[slot]@,
        pow,
    )
}

/// Member `k` of those that item `it` of a tile serves: its token is one of the tile,
/// and its expert is the item's.
proof fn lemma_served(
    c: Cfg,
    chosen: Seq<usize>,
    active: Seq<usize>,
    groups: Seq<Vec<(usize, usize)>>,
    bsz: int,
    t0: int,
    t1: int,
    it: int,
    k: int,
)
    requires
        is_grouped(c, chosen, active, groups, bsz),
        c.d % 4 == 0,
        0 <= t0 <= t1 <= bsz,
        0 <= it < active.len() * c.d,
        0 <= k < served(it, active, groups, c.d as int, t0, t1).len(),
    ensures
        ({
            let m = served(it, active, groups, c.d as int, t0, t1)[k];
            &&& batch_of(it, active, c.d as int) matches Some((e, quad)) && 0 <= e < c.ne && 0
                <= quad && 4 * quad + 4 <= c.d && chosen[m.0 * c.topk + m.1] == e
            &&& t0 <= m.0 < t1
            &&& m.1 < c.topk
        }),
{
    let d = c.d as int;
    assert(0 < d) by (nonlinear_arith)
        requires
            0 <= it < active.len() * d,
            0 <= d,
    ;
    lemma_fundamental_div_mod(it, d);
    lemma_mod_bound(it, d);
    assert(0 <= it / d < active.len()) by (nonlinear_arith)
        requires
            0 <= it < active.len() * d,
            it == d * (it / d) + it % d,
            0 <= it % d < d,
            0 < d,
    ;
    let (e, quad) = batch_of(it, active, d)->0;
    assert(active[it / d] < c.ne);
    let group = groups[e]@;
    let n = chosen.len() as int;
    let all = within_tile(group, t0, t1, group.len() as int);
    let m = all[k];
    assert(all.contains(m));
    tile_keeps_its_tokens(group, t0, t1, group.len() as int, m);
    assert(group.take(group.len() as int) =~= group);
    let i = choose|i: int| 0 <= i < group.len() && group[i] == m;
    vstd::arithmetic::div_mod::lemma_mod_multiples_basic(bsz, c.topk as int);
    choices_fit_their_groups(chosen, c.topk as int, e, n, i);
}

/// The item and the member that stand for a quad of a choice of a token of a tile.
proof fn lemma_met(
    c: Cfg,
    chosen: Seq<usize>,
    active: Seq<usize>,
    groups: Seq<Vec<(usize, usize)>>,
    bsz: int,
    t0: int,
    t1: int,
    slot: int,
    quad: int,
) -> (r: (int, int))
    requires
        is_grouped(c, chosen, active, groups, bsz),
        c.d % 4 == 0,
        0 <= t0 <= t1 <= bsz,
        t0 * c.topk <= slot < t1 * c.topk,
        0 <= quad < c.d / 4,
    ensures
        ({
            let (b, ei) = (slot / c.topk as int, slot % c.topk as int);
            &&& 0 <= r.0 < active.len() * c.d
            &&& batch_of(r.0, active, c.d as int) == Some((chosen[slot] as int, quad))
            &&& 0 <= r.1 < served(r.0, active, groups, c.d as int, t0, t1).len()
            &&& served(r.0, active, groups, c.d as int, t0, t1)[r.1] == (b as usize, ei as usize)
            &&& t0 <= b < t1 && 0 <= ei < c.topk && slot == b * c.topk + ei && slot < chosen.len()
        }),
{
    let (d, topk, n) = (c.d as int, c.topk as int, chosen.len() as int);
    let (b, ei) = (slot / topk, slot % topk);
    lemma_fundamental_div_mod(slot, topk);
    lemma_mod_bound(slot, topk);
    assert(topk * b == b * topk) by (nonlinear_arith);
    assert(t0 <= b < t1) by (nonlinear_arith)
        requires
            t0 * topk <= slot < t1 * topk,
            slot == b * topk + ei,
            0 <= ei < topk,
    ;
    lemma_mul_inequality(t1, bsz, topk);
    assert(0 <= t0 * topk) by (nonlinear_arith)
        requires
            0 <= t0,
            0 < topk,
    ;
    assert(b <= slot) by (nonlinear_arith)
        requires
            slot == b * topk + ei,
            0 <= ei,
            0 < topk,
            0 <= b,
    ;
    let e = chosen[slot] as int;
    assert(chosen[slot] < c.ne);
    let group = groups[e]@;
    groups_partition_choices(chosen, topk, e, slot, n);
    let m = (b as usize, ei as usize);
    assert(group.contains(m));
    assert(groups[e]@.len() > 0);
    assert(active.contains(e as usize));
    let a = choose|a: int| 0 <= a < active.len() && active[a] == e as usize;
    batch_items_are_met_once(active, d, a, quad);
    let it = a * d + 4 * quad;
    let all = within_tile(group, t0, t1, group.len() as int);
    tile_keeps_its_tokens(group, t0, t1, group.len() as int, m);
    assert(group.take(group.len() as int) =~= group);
    assert(all.contains(m));
    let k = choose|k: int| 0 <= k < all.len() && all[k] == m;
    (it, k)
}

/// Where a quad of a slot's gate numbers stands, and that of its up numbers.
proof fn lemma_gate_up_place(slot: int, d: int, quad: int, i: int, total: int)
    requires
        0 <= slot < total,
        0 <= quad,
        4 * quad + 4 <= d,
        0 <= i < 4,
    ensures
        ({
            let at = slot * 2 * d + 4 * quad;
            &&& 0 <= at && at + d + 4 <= total * (2 * d)
            &&& (at + i) / (2 * d) == slot && (at + i) % (2 * d) == 4 * quad + i
            &&& (at + d + i) / (2 * d) == slot && (at + d + i) % (2 * d) == d + 4 * quad + i
        }),
{
    assert(slot * 2 * d == slot * (2 * d)) by (nonlinear_arith);
    lemma_div_mod_of(slot, 2 * d, 4 * quad + i);
    lemma_div_mod_of(slot, 2 * d, d + 4 * quad + i);
    lemma_mul_inequality(slot + 1, total, 2 * d);
    lemma_mul_is_distributive_add_other_way(2 * d, slot, 1);
    assert(0 <= slot * (2 * d)) by (nonlinear_arith)
        requires
            0 <= slot,
            0 <= d,
    ;
}

/// Where a quad of a slot's row of the down projections stands.
proof fn lemma_down_place(slot: int, d: int, quad: int, i: int, total: int)
    requires
        0 <= slot < total,
        0 <= quad,
        4 * quad + 4 <= d,
        0 <= i < 4,
    ensures
        ({
            let at = slot * d + 4 * quad;
            &&& 0 <= at && at + 4 <= total * d
            &&& (at + i) / d == slot && (at + i) % d == 4 * quad + i
        }),
{
    lemma_div_mod_of(slot, d, 4 * quad + i);
    lemma_mul_inequality(slot + 1, total, d);
    lemma_mul_is_distributive_add_other_way(d, slot, 1);
    assert(0 <= slot * d) by (nonlinear_arith)
        requires
            0 <= slot,
            0 <= d,
    ;
}

/// The slot and the quad that stand for a place of gate and up numbers.
proof fn lemma_gate_up_found(x: int, d: int, lo: int, hi: int) -> (r: (int, int))
    requires
        4 <= d,
        d % 4 == 0,
        lo * (2 * d) <= x < hi * (2 * d),
        0 <= lo,
    ensures
        ({
            let (slot, quad) = r;
            let at = slot * 2 * d + 4 * quad;
            &&& lo <= slot < hi
            &&& 0 <= quad < d / 4
            &&& in_four(at, x) || in_four(at + d, x)
        }),
{
    let w = 2 * d;
    let (slot, rem) = lemma_split(x, w, lo, hi);
    assert(slot * w == slot * 2 * d) by (nonlinear_arith)
        requires
            w == 2 * d,
    ;
    let k = if rem < d {
        rem
    } else {
        rem - d
    };
    (slot, k / 4)
}

/// The slot and the quad that stand for a place of the rows of the down projections.
proof fn lemma_down_found(x: int, d: int, lo: int, hi: int) -> (r: (int, int))
    requires
        4 <= d,
        d % 4 == 0,
        lo * d <= x < hi * d,
        0 <= lo,
    ensures
        ({
            let (slot, quad) = r;
            &&& lo <= slot < hi
            &&& 0 <= quad < d / 4
            &&& in_four(slot * d + 4 * quad, x)
        }),
{
    let (slot, rem) = lemma_split(x, d, lo, hi);
    (slot, rem / 4)
}

/// A place among rows of `w` numbers.
proof fn lemma_split(x: int, w: int, lo: int, hi: int) -> (r: (int, int))
    requires
        0 < w,
        lo * w <= x < hi * w,
        0 <= lo,
    ensures
        lo <= r.0 < hi,
        0 <= r.1 < w,
        x == r.0 * w + r.1,
        r.0 == x / w,
        r.1 == x % w,
{
    let (slot, rem) = (x / w, x % w);
    lemma_fundamental_div_mod(x, w);
    lemma_mod_bound(x, w);
    assert(w * slot == slot * w) by (nonlinear_arith);
    assert(lo <= slot < hi) by (nonlinear_arith)
        requires
            lo * w <= x < hi * w,
            x == slot * w + rem,
            0 <= rem < w,
    ;
    (slot, rem)
}

// ------------------------------------------------------------------ the stores

/// The results of all items of the input projections for a tile of tokens.
pub open spec fn are_gate_ups<S: Analytic>(
    l: Layer<S>,
    c: Cfg,
    active: Seq<usize>,
    groups: Seq<Vec<(usize, usize)>>,
    tile: (usize, usize),
    xq: Seq<Vec<i8>>,
    xs: Seq<Vec<S>>,
    pow: Seq<S>,
    found: Seq<Vec<GateUpQuad<S>>>,
) -> bool {
    &&& found.len() == active.len() * c.d
    &&& forall|it: int|
        0 <= it < found.len() ==> gives_gate_up(
            l,
            c,
            it,
            active,
            groups,
            tile,
            xq,
            xs,
            pow,
            (#[trigger] found[it])@,
        )
}

/// Place `x` is one of those of a quad of gate numbers and a quad of up numbers.
spec fn covers_gate_up<S>(o: GateUpQuad<S>, d: int, x: int) -> bool {
    in_four(o.at as int, x) || in_four(o.at + d, x)
}

/// The number that belongs at place `x` of the quads.
spec fn gate_up_number<S>(o: GateUpQuad<S>, d: int, x: int) -> S {
    if in_four(o.at as int, x) {
        o.gate@[x - o.at]
    } else {
        o.up@[x - o.at - d]
    }
}

/// The places of a quad hold what belongs there.
spec fn is_in_gate_up<S>(buf: Seq<S>, right: spec_fn(int) -> S, o: GateUpQuad<S>, d: int) -> bool {
    forall|x: int| covers_gate_up(o, d, x) ==> #[trigger] buf[x] == right(x)
}

/// A quad of a tile is where it belongs, and holds what belongs there.
proof fn lemma_right_gate_up<S: Analytic>(
    l: Layer<S>,
    c: Cfg,
    chosen: Seq<usize>,
    active: Seq<usize>,
    groups: Seq<Vec<(usize, usize)>>,
    tile: (usize, usize),
    xq: Seq<Vec<i8>>,
    xs: Seq<Vec<S>>,
    pow: Seq<S>,
    bsz: int,
    it: int,
    k: int,
    out: Seq<GateUpQuad<S>>,
)
    requires
        is_grouped(c, chosen, active, groups, bsz),
        c.d % 4 == 0,
        0 <= tile.0 <= tile.1 <= bsz,
        0 <= it < active.len() * c.d,
        gives_gate_up(l, c, it, active, groups, tile, xq, xs, pow, out),
        0 <= k < out.len(),
    ensures
        ({
            let o = out[k];
            let (lo, hi) = (tile.0 * c.topk * (2 * c.d), tile.1 * c.topk * (2 * c.d));
            &&& 4 <= c.d
            &&& lo <= o.at && o.at + c.d + 4 <= hi
            &&& forall|x: int|
                covers_gate_up(o, c.d as int, x) ==> #[trigger] gate_up_number(o, c.d as int, x)
                    == gate_up_at(l, c, chosen, xq, xs, pow, x)
        }),
{
    let (d, topk) = (c.d as int, c.topk as int);
    lemma_served(c, chosen, active, groups, bsz, tile.0 as int, tile.1 as int, it, k);
    let m = served(it, active, groups, d, tile.0 as int, tile.1 as int)[k];
    let (e, quad) = batch_of(it, active, d)->0;
    let o = out[k];
    assert(is_gate_up(l, c, e, quad, m, xq, xs, pow, o));
    let slot = m.0 * topk + m.1;
    lemma_div_mod_of(m.0 as int, topk, m.1 as int);
    assert(tile.0 * topk <= slot < tile.1 * topk) by (nonlinear_arith)
        requires
            tile.0 <= m.0 < tile.1,
            slot == m.0 * topk + m.1,
            0 <= m.1 < topk,
    ;
    assert(0 <= slot) by (nonlinear_arith)
        requires
            slot == m.0 * topk + m.1,
            0 <= m.0,
            0 <= m.1,
            0 <= topk,
    ;
    lemma_gate_up_place(slot, d, quad, 0, tile.1 * topk);
    lemma_mul_inequality(tile.0 * topk, slot, 2 * d);
    assert(slot * 2 * d == slot * (2 * d)) by (nonlinear_arith);
    assert forall|x: int| covers_gate_up(o, d, x) implies #[trigger] gate_up_number(o, d, x) == gate_up_at(
        l,
        c,
        chosen,
        xq,
        xs,
        pow,
        x,
    ) by {
        let i = if in_four(o.at as int, x) {
            x - o.at
        } else {
            x - o.at - d
        };
        lemma_gate_up_place(slot, d, quad, i, tile.1 * topk);
        assert((4 * quad + i) / 4 == quad && (4 * quad + i) % 4 == i);
        assert(o.gate@[i] == l.gate_up_value(
            c,
            true,
            e * (d / 4) + quad,
            i,
            xq[m.0 as int]@,
            xs[m.0 as int]@,
            pow,
        ));
        assert(o.up@[i] == l.gate_up_value(
            c,
            false,
            e * (d / 4) + quad,
            i,
            xq[m.0 as int]@,
            xs[m.0 as int]@,
            pow,
        ));
    }
}

/// Puts what the items of the input projections give for a tile of tokens among the
/// numbers of all slots: those of the tile's tokens become what their experts give, and
/// all others stay. The layer, the choices and the inputs say which numbers these are;
/// nothing is computed from them again.
pub fn put_gate_up<S: Analytic>(
    l: &Layer<S>,
    c: &Cfg,
    chosen: &[usize],
    active: &[usize],
    groups: &Vec<Vec<(usize, usize)>>,
    tile: (usize, usize),
    xq: &Vec<Vec<i8>>,
    xs: &Vec<Vec<S>>,
    pow: &[S],
    found: &Vec<Vec<GateUpQuad<S>>>,
    gu: &mut Vec<S>,
)
    requires
        is_grouped(*c, chosen@, active@, groups@, xq@.len() as int),
        c.d % 4 == 0,
        tile.0 <= tile.1 <= xq@.len(),
        are_gate_ups(*l, *c, active@, groups@, tile, xq@, xs@, pow@, found@),
        old(gu)@.len() == xq@.len() * c.topk * (2 * c.d),
    ensures
        final(gu)@.len() == old(gu)@.len(),
        forall|x: int|
            0 <= x < old(gu)@.len() ==> #[trigger] final(gu)@[x] == if tile.0 * c.topk * (2 * c.d)
                <= x < tile.1 * c.topk * (2 * c.d) {
                gate_up_at(*l, *c, chosen@, xq@, xs@, pow@, x)
            } else {
                old(gu)@[x]
            },
{
    let ghost (lo, hi) = (tile.0 * c.topk * (2 * c.d), tile.1 * c.topk * (2 * c.d));
    let ghost right = |x: int| gate_up_at(*l, *c, chosen@, xq@, xs@, pow@, x);
    let ghost n = xq@.len() as int;
    proof {
        lemma_mul_inequality(tile.1 as int, n, c.topk as int);
        lemma_mul_inequality(tile.1 * c.topk, n * c.topk, 2 * c.d);
        assert(0 <= tile.0 * c.topk * (2 * c.d)) by (nonlinear_arith);
    }
    for it in 0..found.len()
        invariant
            is_grouped(*c, chosen@, active@, groups@, n),
            c.d % 4 == 0,
            tile.0 <= tile.1 <= n,
            are_gate_ups(*l, *c, active@, groups@, tile, xq@, xs@, pow@, found@),
            lo == tile.0 * c.topk * (2 * c.d),
            hi == tile.1 * c.topk * (2 * c.d),
            0 <= lo && hi <= gu@.len(),
            right == (|x: int| gate_up_at(*l, *c, chosen@, xq@, xs@, pow@, x)),
            gu@.len() == old(gu)@.len(),
            forall|x: int|
                0 <= x < gu@.len() && !(lo <= x < hi) ==> #[trigger] gu@[x] == old(gu)@[x],
            forall|j: int, k: int|
                #![trigger found@[j]@[k]]
                0 <= j < it && 0 <= k < found@[j]@.len() ==> is_in_gate_up(
                    gu@,
                    right,
                    found@[j]@[k],
                    c.d as int,
                ),
    {
        let quads: &Vec<GateUpQuad<S>> = &found[it];
        assert(gives_gate_up(*l, *c, it as int, active@, groups@, tile, xq@, xs@, pow@, quads@));
        for k in 0..quads.len()
            invariant
                it < found@.len(),
                quads@ == found@[it as int]@,
                gives_gate_up(*l, *c, it as int, active@, groups@, tile, xq@, xs@, pow@, quads@),
                is_grouped(*c, chosen@, active@, groups@, n),
                c.d % 4 == 0,
                tile.0 <= tile.1 <= n,
                are_gate_ups(*l, *c, active@, groups@, tile, xq@, xs@, pow@, found@),
                lo == tile.0 * c.topk * (2 * c.d),
                hi == tile.1 * c.topk * (2 * c.d),
                0 <= lo && hi <= gu@.len(),
                right == (|x: int| gate_up_at(*l, *c, chosen@, xq@, xs@, pow@, x)),
                gu@.len() == old(gu)@.len(),
                forall|x: int|
                    0 <= x < gu@.len() && !(lo <= x < hi) ==> #[trigger] gu@[x] == old(gu)@[x],
                forall|j: int, k: int|
                    #![trigger found@[j]@[k]]
                    0 <= j < it && 0 <= k < found@[j]@.len() ==> is_in_gate_up(
                        gu@,
                        right,
                        found@[j]@[k],
                        c.d as int,
                    ),
                forall|k2: int|
                    0 <= k2 < k ==> is_in_gate_up(gu@, right, #[trigger] quads@[k2], c.d as int),
        {
            let ghost before = gu@;
            proof {
                lemma_right_gate_up(
                    *l,
                    *c,
                    chosen@,
                    active@,
                    groups@,
                    tile,
                    xq@,
                    xs@,
                    pow@,
                    n,
                    it as int,
                    k as int,
                    quads@,
                );
            }
            write_gate_up(gu, &quads[k], c.d);
            proof {
                let o = quads@[k as int];
                assert forall|x: int| 0 <= x < gu@.len() implies #[trigger] gu@[x] == if covers_gate_up(
                    o,
                    c.d as int,
                    x,
                ) {
                    right(x)
                } else {
                    before[x]
                } by {
                    if covers_gate_up(o, c.d as int, x) {
                        assert(gate_up_number(o, c.d as int, x) == right(x));
                    }
                }
                assert forall|j: int, k2: int|
                    #![trigger found@[j]@[k2]]
                    0 <= j < it && 0 <= k2 < found@[j]@.len() implies is_in_gate_up(
                    gu@,
                    right,
                    found@[j]@[k2],
                    c.d as int,
                ) by {
                    assert(gives_gate_up(
                        *l,
                        *c,
                        j,
                        active@,
                        groups@,
                        tile,
                        xq@,
                        xs@,
                        pow@,
                        found@[j]@,
                    ));
                    lemma_right_gate_up(
                        *l,
                        *c,
                        chosen@,
                        active@,
                        groups@,
                        tile,
                        xq@,
                        xs@,
                        pow@,
                        n,
                        j,
                        k2,
                        found@[j]@,
                    );
                    lemma_gate_up_stays(before, gu@, right, o, found@[j]@[k2], c.d as int);
                }
                assert forall|k2: int| 0 <= k2 < k + 1 implies is_in_gate_up(
                    gu@,
                    right,
                    #[trigger] quads@[k2],
                    c.d as int,
                ) by {
                    lemma_right_gate_up(
                        *l,
                        *c,
                        chosen@,
                        active@,
                        groups@,
                        tile,
                        xq@,
                        xs@,
                        pow@,
                        n,
                        it as int,
                        k2,
                        quads@,
                    );
                    if k2 < k {
                        lemma_gate_up_stays(before, gu@, right, o, quads@[k2], c.d as int);
                    }
                }
            }
        }
    }
    proof {
        assert forall|x: int| lo <= x < hi implies #[trigger] gu@[x] == right(x) by {
            lemma_gate_up_read(
                *l,
                *c,
                chosen@,
                active@,
                groups@,
                tile,
                xq@,
                xs@,
                pow@,
                n,
                found@,
                gu@,
                right,
                x,
            );
        }
    }
}

/// Puts a quad of gate numbers and one of up numbers in their places.
fn write_gate_up<S: Analytic>(gu: &mut Vec<S>, o: &GateUpQuad<S>, d: usize)
    requires
        4 <= d,
        o.at + d + 4 <= old(gu)@.len(),
    ensures
        final(gu)@.len() == old(gu)@.len(),
        forall|x: int|
            0 <= x < old(gu)@.len() ==> #[trigger] final(gu)@[x] == if covers_gate_up(
                *o,
                d as int,
                x,
            ) {
                gate_up_number(*o, d as int, x)
            } else {
                old(gu)@[x]
            },
{
    let at: usize = o.at;
    assert(gu@.len() == gu.len());
    for i in 0..4usize
        invariant
            4 <= d,
            at == o.at,
            at + d + 4 <= gu@.len(),
            gu@.len() == gu.len(),
            gu@.len() == old(gu)@.len(),
            forall|x: int|
                0 <= x < old(gu)@.len() ==> #[trigger] gu@[x] == if at <= x < at + i {
                    o.gate@[x - at]
                } else if at + d <= x < at + d + i {
                    o.up@[x - at - d]
                } else {
                    old(gu)@[x]
                },
    {
        gu.set(at + i, o.gate[i]);
        gu.set(at + d + i, o.up[i]);
    }
}

/// What is in its place stays there while another quad is put: where both have a
/// place, the same number belongs there.
proof fn lemma_gate_up_stays<S: Analytic>(
    before: Seq<S>,
    after: Seq<S>,
    right: spec_fn(int) -> S,
    o: GateUpQuad<S>,
    p: GateUpQuad<S>,
    d: int,
)
    requires
        0 <= d,
        p.at + d + 4 <= before.len(),
        after.len() == before.len(),
        forall|x: int|
            0 <= x < before.len() ==> #[trigger] after[x] == if covers_gate_up(o, d, x) {
                right(x)
            } else {
                before[x]
            },
        is_in_gate_up(before, right, p, d),
    ensures
        is_in_gate_up(after, right, p, d),
{
    assert forall|x: int| covers_gate_up(p, d, x) implies #[trigger] after[x] == right(x) by {
        assert(before[x] == right(x));
    }
}

/// Where all quads of a tile are in their places, each place of the tile holds what
/// belongs there.
proof fn lemma_gate_up_read<S: Analytic>(
    l: Layer<S>,
    c: Cfg,
    chosen: Seq<usize>,
    active: Seq<usize>,
    groups: Seq<Vec<(usize, usize)>>,
    tile: (usize, usize),
    xq: Seq<Vec<i8>>,
    xs: Seq<Vec<S>>,
    pow: Seq<S>,
    bsz: int,
    found: Seq<Vec<GateUpQuad<S>>>,
    buf: Seq<S>,
    right: spec_fn(int) -> S,
    x: int,
)
    requires
        is_grouped(c, chosen, active, groups, bsz),
        c.d % 4 == 0,
        0 <= tile.0 <= tile.1 <= bsz,
        are_gate_ups(l, c, active, groups, tile, xq, xs, pow, found),
        tile.0 * c.topk * (2 * c.d) <= x < tile.1 * c.topk * (2 * c.d),
        forall|j: int, k: int|
            #![trigger found[j]@[k]]
            0 <= j < found.len() && 0 <= k < found[j]@.len() ==> is_in_gate_up(
                buf,
                right,
                found[j]@[k],
                c.d as int,
            ),
    ensures
        buf[x] == right(x),
{
    let (d, topk) = (c.d as int, c.topk as int);
    assert(0 <= tile.0 * topk) by (nonlinear_arith)
        requires
            0 <= tile.0,
            0 <= topk,
    ;
    assert(d > 0) by (nonlinear_arith)
        requires
            tile.0 * topk * (2 * d) <= x < tile.1 * topk * (2 * d),
            0 <= d,
    ;
    let (slot, quad) = lemma_gate_up_found(x, d, tile.0 * topk, tile.1 * topk);
    let (it, k) = lemma_met(
        c,
        chosen,
        active,
        groups,
        bsz,
        tile.0 as int,
        tile.1 as int,
        slot,
        quad,
    );
    let out = found[it]@;
    assert(gives_gate_up(l, c, it, active, groups, tile, xq, xs, pow, out));
    let m = served(it, active, groups, d, tile.0 as int, tile.1 as int)[k];
    let o = out[k];
    assert(is_gate_up(l, c, chosen[slot] as int, quad, m, xq, xs, pow, o));
    assert(is_in_gate_up(buf, right, found[it]@[k], d));
    assert(covers_gate_up(o, d, x));
}

/// The results of all items of the down projections for a tile of tokens.
pub open spec fn are_downs<S: Analytic>(
    l: Layer<S>,
    c: Cfg,
    active: Seq<usize>,
    groups: Seq<Vec<(usize, usize)>>,
    tile: (usize, usize),
    hq: Seq<Vec<i8>>,
    hs: Seq<Vec<S>>,
    pow: Seq<S>,
    found: Seq<Vec<DownQuad<S>>>,
) -> bool {
    &&& found.len() == active.len() * c.d
    &&& forall|it: int|
        0 <= it < found.len() ==> gives_down(
            l,
            c,
            it,
            active,
            groups,
            tile,
            hq,
            hs,
            pow,
            (#[trigger] found[it])@,
        )
}

/// Place `x` is one of those of a quad of a down projection.
spec fn covers_down<S>(o: DownQuad<S>, d: int, x: int) -> bool {
    in_four(o.at as int, x)
}

/// The number that belongs at place `x` of the quad.
spec fn down_number<S>(o: DownQuad<S>, d: int, x: int) -> S {
    o.values@[x - o.at]
}

/// The places of a quad hold what belongs there.
spec fn is_in_down<S>(buf: Seq<S>, right: spec_fn(int) -> S, o: DownQuad<S>, d: int) -> bool {
    forall|x: int| covers_down(o, d, x) ==> #[trigger] buf[x] == right(x)
}

/// A quad of a tile is where it belongs, and holds what belongs there.
proof fn lemma_right_down<S: Analytic>(
    l: Layer<S>,
    c: Cfg,
    chosen: Seq<usize>,
    active: Seq<usize>,
    groups: Seq<Vec<(usize, usize)>>,
    tile: (usize, usize),
    hq: Seq<Vec<i8>>,
    hs: Seq<Vec<S>>,
    pow: Seq<S>,
    bsz: int,
    it: int,
    k: int,
    out: Seq<DownQuad<S>>,
)
    requires
        is_grouped(c, chosen, active, groups, bsz),
        c.d % 4 == 0,
        0 <= tile.0 <= tile.1 <= bsz,
        0 <= it < active.len() * c.d,
        gives_down(l, c, it, active, groups, tile, hq, hs, pow, out),
        0 <= k < out.len(),
    ensures
        ({
            let o = out[k];
            let (lo, hi) = (tile.0 * c.topk * c.d, tile.1 * c.topk * c.d);
            &&& 4 <= c.d
            &&& lo <= o.at && o.at + 4 <= hi
            &&& forall|x: int|
                covers_down(o, c.d as int, x) ==> #[trigger] down_number(o, c.d as int, x)
                    == down_at(l, c, chosen, hq, hs, pow, x)
        }),
{
    let (d, topk) = (c.d as int, c.topk as int);
    lemma_served(c, chosen, active, groups, bsz, tile.0 as int, tile.1 as int, it, k);
    let m = served(it, active, groups, d, tile.0 as int, tile.1 as int)[k];
    let (e, quad) = batch_of(it, active, d)->0;
    let o = out[k];
    assert(is_down(l, c, e, quad, m, hq, hs, pow, o));
    let slot = m.0 * topk + m.1;
    lemma_div_mod_of(m.0 as int, topk, m.1 as int);
    assert(tile.0 * topk <= slot < tile.1 * topk) by (nonlinear_arith)
        requires
            tile.0 <= m.0 < tile.1,
            slot == m.0 * topk + m.1,
            0 <= m.1 < topk,
    ;
    assert(0 <= slot) by (nonlinear_arith)
        requires
            slot == m.0 * topk + m.1,
            0 <= m.0,
            0 <= m.1,
            0 <= topk,
    ;
    lemma_down_place(slot, d, quad, 0, tile.1 * topk);
    lemma_mul_inequality(tile.0 * topk, slot, d);
    assert forall|x: int| covers_down(o, d, x) implies #[trigger] down_number(o, d, x) == down_at(
        l,
        c,
        chosen,
        hq,
        hs,
        pow,
        x,
    ) by {
        let i = x - o.at;
        lemma_down_place(slot, d, quad, i, tile.1 * topk);
        assert((4 * quad + i) / 4 == quad && (4 * quad + i) % 4 == i);
        assert(o.values@[i] == l.down_value(
            c,
            e * (d / 4) + quad,
            i,
            hq[slot]@,
            hs[slot]@,
            pow,
        ));
    }
}

/// Puts what the items of the down projections give for a tile of tokens among the
/// rows of all slots: those of the tile's tokens become what their experts give, and
/// all others stay. The layer, the choices and the inputs say which numbers these are;
/// nothing is computed from them again.
pub fn put_down<S: Analytic>(
    l: &Layer<S>,
    c: &Cfg,
    chosen: &[usize],
    active: &[usize],
    groups: &Vec<Vec<(usize, usize)>>,
    tile: (usize, usize),
    hq: &Vec<Vec<i8>>,
    hs: &Vec<Vec<S>>,
    pow: &[S],
    bsz: usize,
    found: &Vec<Vec<DownQuad<S>>>,
    ffn: &mut Vec<S>,
)
    requires
        is_grouped(*c, chosen@, active@, groups@, bsz as int),
        c.d % 4 == 0,
        tile.0 <= tile.1 <= bsz,
        are_downs(*l, *c, active@, groups@, tile, hq@, hs@, pow@, found@),
        old(ffn)@.len() == bsz * c.topk * c.d,
    ensures
        final(ffn)@.len() == old(ffn)@.len(),
        forall|x: int|
            0 <= x < old(ffn)@.len() ==> #[trigger] final(ffn)@[x] == if tile.0 * c.topk * c.d
                <= x < tile.1 * c.topk * c.d {
                down_at(*l, *c, chosen@, hq@, hs@, pow@, x)
            } else {
                old(ffn)@[x]
            },
{
    let ghost (lo, hi) = (tile.0 * c.topk * c.d, tile.1 * c.topk * c.d);
    let ghost right = |x: int| down_at(*l, *c, chosen@, hq@, hs@, pow@, x);
    let ghost n = bsz as int;
    proof {
        lemma_mul_inequality(tile.1 as int, n, c.topk as int);
        lemma_mul_inequality(tile.1 * c.topk, n * c.topk, c.d as int);
        assert(0 <= tile.0 * c.topk * c.d) by (nonlinear_arith);
    }
    for it in 0..found.len()
        invariant
            is_grouped(*c, chosen@, active@, groups@, n),
            c.d % 4 == 0,
            tile.0 <= tile.1 <= n,
            are_downs(*l, *c, active@, groups@, tile, hq@, hs@, pow@, found@),
            lo == tile.0 * c.topk * c.d,
            hi == tile.1 * c.topk * c.d,
            0 <= lo && hi <= ffn@.len(),
            right == (|x: int| down_at(*l, *c, chosen@, hq@, hs@, pow@, x)),
            ffn@.len() == old(ffn)@.len(),
            forall|x: int|
                0 <= x < ffn@.len() && !(lo <= x < hi) ==> #[trigger] ffn@[x] == old(ffn)@[x],
            forall|j: int, k: int|
                #![trigger found@[j]@[k]]
                0 <= j < it && 0 <= k < found@[j]@.len() ==> is_in_down(
                    ffn@,
                    right,
                    found@[j]@[k],
                    c.d as int,
                ),
    {
        let quads: &Vec<DownQuad<S>> = &found[it];
        assert(gives_down(*l, *c, it as int, active@, groups@, tile, hq@, hs@, pow@, quads@));
        for k in 0..quads.len()
            invariant
                it < found@.len(),
                quads@ == found@[it as int]@,
                gives_down(*l, *c, it as int, active@, groups@, tile, hq@, hs@, pow@, quads@),
                is_grouped(*c, chosen@, active@, groups@, n),
                c.d % 4 == 0,
                tile.0 <= tile.1 <= n,
                are_downs(*l, *c, active@, groups@, tile, hq@, hs@, pow@, found@),
                lo == tile.0 * c.topk * c.d,
                hi == tile.1 * c.topk * c.d,
                0 <= lo && hi <= ffn@.len(),
                right == (|x: int| down_at(*l, *c, chosen@, hq@, hs@, pow@, x)),
                ffn@.len() == old(ffn)@.len(),
                forall|x: int|
                    0 <= x < ffn@.len() && !(lo <= x < hi) ==> #[trigger] ffn@[x] == old(ffn)@[x],
                forall|j: int, k: int|
                    #![trigger found@[j]@[k]]
                    0 <= j < it && 0 <= k < found@[j]@.len() ==> is_in_down(
                        ffn@,
                        right,
                        found@[j]@[k],
                        c.d as int,
                    ),
                forall|k2: int|
                    0 <= k2 < k ==> is_in_down(ffn@, right, #[trigger] quads@[k2], c.d as int),
        {
            let ghost before = ffn@;
            proof {
                lemma_right_down(
                    *l,
                    *c,
                    chosen@,
                    active@,
                    groups@,
                    tile,
                    hq@,
                    hs@,
                    pow@,
                    n,
                    it as int,
                    k as int,
                    quads@,
                );
            }
            write_down(ffn, &quads[k], c.d);
            proof {
                let o = quads@[k as int];
                assert forall|x: int| 0 <= x < ffn@.len() implies #[trigger] ffn@[x] == if covers_down(
                    o,
                    c.d as int,
                    x,
                ) {
                    right(x)
                } else {
                    before[x]
                } by {
                    if covers_down(o, c.d as int, x) {
                        assert(down_number(o, c.d as int, x) == right(x));
                    }
                }
                assert forall|j: int, k2: int|
                    #![trigger found@[j]@[k2]]
                    0 <= j < it && 0 <= k2 < found@[j]@.len() implies is_in_down(
                    ffn@,
                    right,
                    found@[j]@[k2],
                    c.d as int,
                ) by {
                    assert(gives_down(
                        *l,
                        *c,
                        j,
                        active@,
                        groups@,
                        tile,
                        hq@,
                        hs@,
                        pow@,
                        found@[j]@,
                    ));
                    lemma_right_down(
                        *l,
                        *c,
                        chosen@,
                        active@,
                        groups@,
                        tile,
                        hq@,
                        hs@,
                        pow@,
                        n,
                        j,
                        k2,
                        found@[j]@,
                    );
                    lemma_down_stays(before, ffn@, right, o, found@[j]@[k2], c.d as int);
                }
                assert forall|k2: int| 0 <= k2 < k + 1 implies is_in_down(
                    ffn@,
                    right,
                    #[trigger] quads@[k2],
                    c.d as int,
                ) by {
                    lemma_right_down(
                        *l,
                        *c,
                        chosen@,
                        active@,
                        groups@,
                        tile,
                        hq@,
                        hs@,
                        pow@,
                        n,
                        it as int,
                        k2,
                        quads@,
                    );
                    if k2 < k {
                        lemma_down_stays(before, ffn@, right, o, quads@[k2], c.d as int);
                    }
                }
            }
        }
    }
    proof {
        assert forall|x: int| lo <= x < hi implies #[trigger] ffn@[x] == right(x) by {
            lemma_down_read(
                *l,
                *c,
                chosen@,
                active@,
                groups@,
                tile,
                hq@,
                hs@,
                pow@,
                n,
                found@,
                ffn@,
                right,
                x,
            );
        }
    }
}

/// Puts a quad of a down projection in its place.
fn write_down<S: Analytic>(ffn: &mut Vec<S>, o: &DownQuad<S>, d: usize)
    requires
        o.at + 4 <= old(ffn)@.len(),
    ensures
        final(ffn)@.len() == old(ffn)@.len(),
        forall|x: int|
            0 <= x < old(ffn)@.len() ==> #[trigger] final(ffn)@[x] == if covers_down(
                *o,
                d as int,
                x,
            ) {
                down_number(*o, d as int, x)
            } else {
                old(ffn)@[x]
            },
{
    let at: usize = o.at;
    assert(ffn@.len() == ffn.len());
    for i in 0..4usize
        invariant
            at == o.at,
            at + 4 <= ffn@.len(),
            ffn@.len() == ffn.len(),
            ffn@.len() == old(ffn)@.len(),
            forall|x: int|
                0 <= x < old(ffn)@.len() ==> #[trigger] ffn@[x] == if at <= x < at + i {
                    o.values@[x - at]
                } else {
                    old(ffn)@[x]
                },
    {
        ffn.set(at + i, o.values[i]);
    }
}

/// What is in its place stays there while another quad is put: where both have a
/// place, the same number belongs there.
proof fn lemma_down_stays<S: Analytic>(
    before: Seq<S>,
    after: Seq<S>,
    right: spec_fn(int) -> S,
    o: DownQuad<S>,
    p: DownQuad<S>,
    d: int,
)
    requires
        0 <= d,
        p.at + 4 <= before.len(),
        after.len() == before.len(),
        forall|x: int|
            0 <= x < before.len() ==> #[trigger] after[x] == if covers_down(o, d, x) {
                right(x)
            } else {
                before[x]
            },
        is_in_down(before, right, p, d),
    ensures
        is_in_down(after, right, p, d),
{
    assert forall|x: int| covers_down(p, d, x) implies #[trigger] after[x] == right(x) by {
        assert(before[x] == right(x));
    }
}

/// Where all quads of a tile are in their places, each place of the tile holds what
/// belongs there.
proof fn lemma_down_read<S: Analytic>(
    l: Layer<S>,
    c: Cfg,
    chosen: Seq<usize>,
    active: Seq<usize>,
    groups: Seq<Vec<(usize, usize)>>,
    tile: (usize, usize),
    hq: Seq<Vec<i8>>,
    hs: Seq<Vec<S>>,
    pow: Seq<S>,
    bsz: int,
    found: Seq<Vec<DownQuad<S>>>,
    buf: Seq<S>,
    right: spec_fn(int) -> S,
    x: int,
)
    requires
        is_grouped(c, chosen, active, groups, bsz),
        c.d % 4 == 0,
        0 <= tile.0 <= tile.1 <= bsz,
        are_downs(l, c, active, groups, tile, hq, hs, pow, found),
        tile.0 * c.topk * c.d <= x < tile.1 * c.topk * c.d,
        forall|j: int, k: int|
            #![trigger found[j]@[k]]
            0 <= j < found.len() && 0 <= k < found[j]@.len() ==> is_in_down(
                buf,
                right,
                found[j]@[k],
                c.d as int,
            ),
    ensures
        buf[x] == right(x),
{
    let (d, topk) = (c.d as int, c.topk as int);
    assert(0 <= tile.0 * topk) by (nonlinear_arith)
        requires
            0 <= tile.0,
            0 <= topk,
    ;
    assert(d > 0) by (nonlinear_arith)
        requires
            tile.0 * topk * (d) <= x < tile.1 * topk * (d),
            0 <= d,
    ;
    let (slot, quad) = lemma_down_found(x, d, tile.0 * topk, tile.1 * topk);
    let (it, k) = lemma_met(
        c,
        chosen,
        active,
        groups,
        bsz,
        tile.0 as int,
        tile.1 as int,
        slot,
        quad,
    );
    let out = found[it]@;
    assert(gives_down(l, c, it, active, groups, tile, hq, hs, pow, out));
    let m = served(it, active, groups, d, tile.0 as int, tile.1 as int)[k];
    let o = out[k];
    assert(is_down(l, c, chosen[slot] as int, quad, m, hq, hs, pow, o));
    assert(is_in_down(buf, right, found[it]@[k], d));
    assert(covers_down(o, d, x));
}

// --------------------------------------------------------------- token by token

/// What the items of the input projections of a pass leave behind for one token.
pub open spec fn hidden_is_left<S: Analytic>(
    l: Layer<S>,
    c: Cfg,
    top: Seq<usize>,
    x: Seq<i8>,
    xs: Seq<S>,
    pow: Seq<S>,
    hidden: Seq<S>,
) -> bool {
    &&& hidden.len() == c.topk * (2 * c.d)
    &&& forall|it: int, i: int|
        #![trigger gate_up_four(l, c, it, top, x, xs, pow)[i]]
        0 <= it < c.topk * (2 * (c.d as int / 4)) && 0 <= i < 4 ==> hidden[4 * it + i]
            == gate_up_four(l, c, it, top, x, xs, pow)[i]
}

/// The activations of block `it` of a pass.
pub open spec fn hidden_block<S: Analytic>(hidden: Seq<S>, d: int, it: int) -> Seq<S> {
    let nb = d / 32;
    let gate = (it / nb) * (2 * (32 * nb)) + 32 * (it % nb);
    block_gates(hidden, gate, gate + 32 * nb)
}

/// What the items of the activation of a pass leave behind for one token: levels `h`
/// and scales `hs`.
pub open spec fn levels_are_left<S: Analytic>(
    c: Cfg,
    hidden: Seq<S>,
    h: Seq<i8>,
    hs: Seq<S>,
) -> bool {
    &&& h.len() == c.topk * c.d
    &&& hs.len() == c.topk * (c.d as int / 32)
    &&& forall|it: int|
        0 <= it < hs.len() ==> #[trigger] hs[it] == scale_of(
            hidden_block(hidden, c.d as int, it),
            0,
            32,
        )
    &&& forall|it: int, k: int|
        #![trigger block_at(hidden_block(hidden, c.d as int, it), 0)[k]]
        0 <= it < hs.len() && 0 <= k < 32 ==> h[32 * it + k] == block_at(
            hidden_block(hidden, c.d as int, it),
            0,
        )[k]
}

/// Gate and up numbers of a batch are those of a pass: both come from the same rows.
proof fn lemma_same_numbers<S: Analytic>(
    l: Layer<S>,
    c: Cfg,
    chosen: Seq<usize>,
    xq: Seq<Vec<i8>>,
    xs: Seq<Vec<S>>,
    pow: Seq<S>,
    b: int,
    hidden: Seq<S>,
    ei: int,
    r: int,
)
    requires
        c.d % 4 == 0,
        0 <= b,
        0 <= ei < c.topk,
        0 <= r < 2 * c.d,
        (b + 1) * c.topk <= chosen.len(),
        hidden_is_left(
            l,
            c,
            chosen.subrange(b * c.topk, (b + 1) * c.topk),
            xq[b]@,
            xs[b]@,
            pow,
            hidden,
        ),
    ensures
        hidden[ei * (2 * c.d) + r] == gate_up_at(
            l,
            c,
            chosen,
            xq,
            xs,
            pow,
            (b * c.topk + ei) * (2 * c.d) + r,
        ),
{
    let (d, topk, dq) = (c.d as int, c.topk as int, c.d as int / 4);
    assert((b + 1) * topk == b * topk + topk) by (nonlinear_arith);
    assert(0 <= b * topk) by (nonlinear_arith)
        requires
            0 <= b,
            0 <= topk,
    ;
    let top = chosen.subrange(b * topk, (b + 1) * topk);
    let slot = b * topk + ei;
    lemma_div_mod_of(b, topk, ei);
    lemma_div_mod_of(slot, 2 * d, r);
    let gate = r < d;
    let k = if gate {
        r
    } else {
        r - d
    };
    let (q, i) = (k / 4, k % 4);
    gate_up_items_are_met_once(top, dq, ei, gate, q);
    let it = ei * (2 * dq) + if gate {
        q
    } else {
        dq + q
    };
    assert(ei * (2 * d) == 4 * (ei * (2 * dq))) by (nonlinear_arith)
        requires
            d == 4 * dq,
    ;
    assert(4 * it + i == ei * (2 * d) + r);
    assert(hidden[4 * it + i] == gate_up_four(l, c, it, top, xq[b]@, xs[b]@, pow)[i]);
    assert(top[ei] == chosen[slot]);
}

/// A run of numbers has the same greatest magnitude wherever it stands.
proof fn lemma_peak_moves<S: Analytic>(x: Seq<S>, at: int, y: Seq<S>, to: int, n: int)
    requires
        forall|i: int| 0 <= i < n ==> #[trigger] x[at + i] == y[to + i],
    ensures
        peak(x, at, n) == peak(y, to, n),
    decreases n,
{
    if n > 0 {
        lemma_peak_moves(x, at, y, to, n - 1);
        assert(x[at + (n - 1)] == y[to + (n - 1)]);
    }
}

/// The levels and scales of a choice of a token are those that a pass leaves for it.
proof fn lemma_same_levels<S: Analytic>(
    c: Cfg,
    gu: Seq<S>,
    slot: int,
    hidden: Seq<S>,
    h: Seq<i8>,
    hs: Seq<S>,
    ei: int,
)
    requires
        c.d % 32 == 0,
        0 <= ei < c.topk,
        levels_are_left(c, hidden, h, hs),
        forall|r: int|
            0 <= r < 2 * c.d ==> hidden[ei * (2 * c.d) + r] == #[trigger] gu[slot * (2 * c.d) + r],
    ensures
        ({
            let (d, nb) = (c.d as int, c.d as int / 32);
            let g = slot_gates(gu, slot, d);
            &&& h.subrange(ei * d, ei * d + d) == levels_of(g)
            &&& hs.subrange(ei * nb, ei * nb + nb) == scales_of(g)
        }),
{
    let (d, nb) = (c.d as int, c.d as int / 32);
    let g = slot_gates(gu, slot, d);
    assert(ei * d == 32 * (ei * nb)) by (nonlinear_arith)
        requires
            d == 32 * nb,
    ;
    assert(ei * (2 * d) == ei * (2 * (32 * nb))) by (nonlinear_arith)
        requires
            d == 32 * nb,
    ;
    assert(0 <= ei * nb && ei * nb + nb <= c.topk * nb) by (nonlinear_arith)
        requires
            0 <= ei < c.topk,
            0 <= nb,
    ;
    assert(c.topk * d == 32 * (c.topk * nb)) by (nonlinear_arith)
        requires
            d == 32 * nb,
    ;
    assert forall|t: int| 0 <= t < nb implies {
        let block = #[trigger] hidden_block(hidden, d, ei * nb + t);
        &&& scale_of(block, 0, 32) == scale_of(g, 32 * t, 32)
        &&& forall|k: int| 0 <= k < 32 ==> #[trigger] block[k] == g[32 * t + k]
    } by {
        let it = ei * nb + t;
        let block = hidden_block(hidden, d, it);
        lemma_div_mod_of(ei, nb, t);
        let gate = ei * (2 * d) + 32 * t;
        assert forall|k: int| 0 <= k < 32 implies #[trigger] block[k] == g[32 * t + k] by {
            let (r, u) = (32 * t + k, d + 32 * t + k);
            assert(gu[slot * (2 * d) + r] == hidden[ei * (2 * d) + r]);
            assert(gu[slot * (2 * d) + u] == hidden[ei * (2 * d) + u]);
            assert(gate + k == ei * (2 * d) + r && gate + 32 * nb + k == ei * (2 * d) + u);
            assert(slot * (2 * d) + d + r == slot * (2 * d) + u);
        }
        assert forall|i: int| 0 <= i < 32 implies #[trigger] block[0 + i] == g[32 * t + i] by {
            assert(block[i] == g[32 * t + i]);
        }
        lemma_peak_moves(block, 0, g, 32 * t, 32);
    }
    assert(hs.subrange(ei * nb, ei * nb + nb) =~= scales_of(g)) by {
        assert forall|t: int| 0 <= t < nb implies hs.subrange(ei * nb, ei * nb + nb)[t]
            == scales_of(g)[t] by {
            let block = hidden_block(hidden, d, ei * nb + t);
            assert(hs[ei * nb + t] == scale_of(block, 0, 32));
        }
    }
    assert(h.subrange(ei * d, ei * d + d) =~= levels_of(g)) by {
        assert forall|i: int| 0 <= i < d implies h.subrange(ei * d, ei * d + d)[i] == levels_of(
            g,
        )[i] by {
            let (t, k) = (i / 32, i % 32);
            let it = ei * nb + t;
            let block = hidden_block(hidden, d, it);
            assert(block[k] == g[32 * t + k]);
            assert(h[32 * it + k] == block_at(block, 0)[k]);
            assert(32 * it + k == ei * d + i);
            assert(i / 32 * 32 == 32 * t);
        }
    }
}

/// A batch gives a token what a pass of its own gives it, number by number. Gate
/// and up numbers, the activations and the rows of the down projections of token `b`
/// are those that the items of a batch leave in its buffers; `hidden`, `h` and `hs` are
/// what the items of a pass on the same levels and scales, with the same experts, leave
/// in theirs. Then the token's stream after the batch is its stream after the pass.
pub proof fn batch_is_token_by_token<S: Analytic>(
    l: Layer<S>,
    c: Cfg,
    chosen: Seq<usize>,
    weights: Seq<S>,
    xq: Seq<Vec<i8>>,
    xs: Seq<Vec<S>>,
    pow: Seq<S>,
    gu: Seq<S>,
    hq: Seq<Vec<i8>>,
    hs: Seq<Vec<S>>,
    ffn: Seq<S>,
    b: int,
    hidden: Seq<S>,
    levels: Seq<i8>,
    scales: Seq<S>,
    quad: int,
    i: int,
    x: S,
)
    requires
        c.d % 32 == 0,
        0 <= b,
        (b + 1) * c.topk <= chosen.len(),
        (b + 1) * c.topk <= weights.len(),
        forall|p: int|
            b * c.topk * (2 * c.d) <= p < (b + 1) * c.topk * (2 * c.d) ==> #[trigger] gu[p]
                == gate_up_at(l, c, chosen, xq, xs, pow, p),
        forall|slot: int|
            b * c.topk <= slot < (b + 1) * c.topk ==> (#[trigger] hq[slot])@ == levels_of(
                slot_gates(gu, slot, c.d as int),
            ),
        forall|slot: int|
            b * c.topk <= slot < (b + 1) * c.topk ==> (#[trigger] hs[slot])@ == scales_of(
                slot_gates(gu, slot, c.d as int),
            ),
        forall|p: int|
            b * c.topk * c.d <= p < (b + 1) * c.topk * c.d ==> #[trigger] ffn[p] == down_at(
                l,
                c,
                chosen,
                hq,
                hs,
                pow,
                p,
            ),
        hidden_is_left(
            l,
            c,
            chosen.subrange(b * c.topk, (b + 1) * c.topk),
            xq[b]@,
            xs[b]@,
            pow,
            hidden,
        ),
        levels_are_left(c, hidden, levels, scales),
        0 <= quad < c.d / 4,
        0 <= i < 4,
    ensures
        batch_stream(x, weights, ffn, b, c.topk as int, c.d as int, 4 * quad + i, c.topk as int)
            == l.stream_value(
            c,
            quad,
            i,
            x,
            chosen.subrange(b * c.topk, (b + 1) * c.topk),
            weights.subrange(b * c.topk, (b + 1) * c.topk),
            levels,
            scales,
            pow,
            c.topk as int,
        ),
{
    let (d, topk, nb) = (c.d as int, c.topk as int, c.d as int / 32);
    assert((b + 1) * topk == b * topk + topk) by (nonlinear_arith);
    assert(0 <= b * topk) by (nonlinear_arith)
        requires
            0 <= b,
            0 <= topk,
    ;
    let top = chosen.subrange(b * topk, (b + 1) * topk);
    assert forall|ei: int| #![trigger top[ei]] 0 <= ei < topk implies ffn[(b * topk + ei) * d + (4
        * quad + i)] == l.down_value(
        c,
        top[ei] * (d / 4) + quad,
        i,
        levels.subrange(ei * d, ei * d + d),
        scales.subrange(ei * nb, ei * nb + nb),
        pow,
    ) by {
        let slot = b * topk + ei;
        assert forall|r: int| 0 <= r < 2 * c.d implies hidden[ei * (2 * c.d) + r] == #[trigger] gu[
        slot * (2 * c.d) + r] by {
            lemma_same_numbers(l, c, chosen, xq, xs, pow, b, hidden, ei, r);
            lemma_slot_inside(b * topk, slot, (b + 1) * topk, 2 * d, r);
        }
        lemma_same_levels(c, gu, slot, hidden, levels, scales, ei);
        let k = 4 * quad + i;
        lemma_slot_inside(b * topk, slot, (b + 1) * topk, d, k);
        lemma_div_mod_of(slot, d, k);
        assert(k / 4 == quad && k % 4 == i);
        assert(ffn[slot * d + k] == down_at(l, c, chosen, hq, hs, pow, slot * d + k));
        assert(hq[slot]@ == levels_of(slot_gates(gu, slot, d)));
        assert(hs[slot]@ == scales_of(slot_gates(gu, slot, d)));
        assert(top[ei] == chosen[slot]);
    }
    lemma_rows_add_up(l, c, b, quad, i, x, top, weights, ffn, levels, scales, pow, topk);
}

/// Quantizing a whole vector, as a batch does, is quantizing it block by block, as the
/// items of a pass do.
pub proof fn quantized_block_by_block<S: Analytic>(x: Seq<S>, it: int, k: int)
    requires
        0 <= it < x.len() as int / 32,
        0 <= k < 32,
    ensures
        levels_of(x)[32 * it + k] == block_at(x, it)[k],
        scales_of(x)[it] == scale_of(x, 32 * it, 32),
{
    let p = 32 * it + k;
    assert(p / 32 * 32 == 32 * it && 0 <= p < x.len() as int / 32 * 32 <= x.len());
    assert(levels_of(x)[p] == block_level(x, p));
    assert(block_level(x, p) == level_of(x[p], scale_of(x, 32 * it, 32)));
    assert(block_at(x, it)[k] == level_of(x[32 * it + k], scale_of(x, 32 * it, 32)));
}

/// Quantizing what all heads of a token take together, as a batch does, is quantizing
/// what each takes by itself, as the items of a pass do.
pub proof fn quantized_head_by_head<S: Analytic>(x: Seq<S>, hd: int, h: int, j: int)
    requires
        0 < hd,
        hd % 32 == 0,
        0 <= h,
        (h + 1) * hd <= x.len(),
        0 <= j < hd,
    ensures
        ({
            let head = x.subrange(h * hd, h * hd + hd);
            &&& levels_of(x)[h * hd + j] == levels_of(head)[j]
            &&& scales_of(x)[h * (hd / 32) + j / 32] == scales_of(head)[j / 32]
        }),
{
    let n = hd / 32;
    assert((h + 1) * hd == h * hd + hd) by (nonlinear_arith);
    assert(h * hd == 32 * (h * n)) by (nonlinear_arith)
        requires
            hd == 32 * n,
    ;
    assert(0 <= h * n) by (nonlinear_arith)
        requires
            0 <= h,
            0 <= n,
    ;
    let head = x.subrange(h * hd, h * hd + hd);
    let (t, p) = (j / 32, h * hd + j);
    assert(p / 32 == h * n + t && p / 32 * 32 == h * hd + 32 * t);
    assert forall|i: int| 0 <= i < 32 implies #[trigger] x[h * hd + 32 * t + i] == head[32 * t + i] by {}
    lemma_peak_moves(x, h * hd + 32 * t, head, 32 * t, 32);
    assert(32 * (h * n + t) == h * hd + 32 * t);
    assert(h * n + t < x.len() as int / 32);
}

/// A place of a slot is one of the slots around it.
proof fn lemma_slot_inside(lo: int, slot: int, hi: int, w: int, r: int)
    requires
        lo <= slot < hi,
        0 <= r < w,
    ensures
        lo * w <= slot * w + r < hi * w,
{
    lemma_mul_inequality(lo, slot, w);
    lemma_mul_inequality(slot + 1, hi, w);
    lemma_mul_is_distributive_add_other_way(w, slot, 1);
}

} // verus!
