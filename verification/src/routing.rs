//! Which weights, biases and places of the buffers each work item of a forward
//! pass stands for. Items are numbered from zero and cut among the workers.
use crate::arith::lemma_div_mod_of;
use crate::config::Cfg;
use vstd::arithmetic::div_mod::{
    lemma_fundamental_div_mod, lemma_fundamental_div_mod_converse, lemma_mod_bound,
};
use vstd::arithmetic::mul::{lemma_mul_inequality, lemma_mul_is_distributive_add_other_way};
use vstd::prelude::*;

verus! {

/// The quotient and the remainder of an item by a positive number of items.
proof fn lemma_quotient(it: int, per: int, count: int)
    requires
        0 <= it < count * per,
        0 < per,
        0 <= count,
    ensures
        0 <= it / per < count,
        0 <= it % per < per,
        it == (it / per) * per + it % per,
{
    lemma_fundamental_div_mod(it, per);
    lemma_mod_bound(it, per);
    let q = it / per;
    assert(q * per == per * q) by (nonlinear_arith);
    assert(0 <= q < count) by (nonlinear_arith)
        requires
            0 <= it < count * per,
            it == q * per + it % per,
            0 <= it % per < per,
    ;
}

/// A quotient and a remainder give back the number that they came from.
proof fn lemma_rebuild(q: int, r: int, per: int)
    requires
        0 <= r < per,
    ensures
        (q * per + r) / per == q,
        (q * per + r) % per == r,
{
    lemma_fundamental_div_mod_converse(q * per + r, per, q, r);
}

// ---------------------------------------------------- queries, keys and values

/// The three projections of the attention input.
#[derive(Clone, Copy, Debug, PartialEq, Eq, Structural)]
pub enum Projection {
    Query,
    Key,
    Value,
}

/// The projection and the row that row `r` of all three together stands for: the
/// queries come first, then the keys, then the values.
pub open spec fn projected(r: int, nh: int, nkv: int, hd: int) -> (Projection, int) {
    if r < nh * hd {
        (Projection::Query, r)
    } else if r < nh * hd + nkv * hd {
        (Projection::Key, r - nh * hd)
    } else {
        (Projection::Value, r - nh * hd - nkv * hd)
    }
}

/// The number of rows of a projection.
pub open spec fn projection_rows(p: Projection, nh: int, nkv: int, hd: int) -> int {
    match p {
        Projection::Query => nh * hd,
        Projection::Key => nkv * hd,
        Projection::Value => nkv * hd,
    }
}

/// The projection and the row that row `r` stands for.
pub fn qkv_row(r: usize, nh: usize, nkv: usize, hd: usize) -> (p: (Projection, usize))
    requires
        r < nh * hd + 2 * nkv * hd,
        nh * hd + 2 * nkv * hd <= usize::MAX,
    ensures
        p.0 == projected(r as int, nh as int, nkv as int, hd as int).0,
        p.1 == projected(r as int, nh as int, nkv as int, hd as int).1,
        p.1 < projection_rows(p.0, nh as int, nkv as int, hd as int),
{
    proof {
        assert(2 * nkv * hd == nkv * hd + nkv * hd) by (nonlinear_arith);
        assert(0 <= nkv * hd) by (nonlinear_arith);
        assert(0 <= nh * hd) by (nonlinear_arith);
    }
    let queries: usize = nh * hd;
    let keys: usize = nkv * hd;
    if r < queries {
        (Projection::Query, r)
    } else if r < queries + keys {
        (Projection::Key, r - queries)
    } else {
        (Projection::Value, r - queries - keys)
    }
}

/// Each row of each projection is computed for exactly one row of all three
/// together.
pub proof fn qkv_rows_are_computed_once(p: Projection, row: int, nh: int, nkv: int, hd: int) -> (r:
    int)
    requires
        0 <= nh,
        0 <= nkv,
        0 <= hd,
        0 <= row < projection_rows(p, nh, nkv, hd),
    ensures
        0 <= r < nh * hd + 2 * nkv * hd,
        projected(r, nh, nkv, hd) == (p, row),
        forall|s: int|
            0 <= s < nh * hd + 2 * nkv * hd && #[trigger] projected(s, nh, nkv, hd) == (p, row)
                ==> s == r,
{
    assert(2 * nkv * hd == nkv * hd + nkv * hd) by (nonlinear_arith);
    assert(0 <= nkv * hd) by (nonlinear_arith)
        requires
            0 <= nkv,
            0 <= hd,
    ;
    assert(0 <= nh * hd) by (nonlinear_arith)
        requires
            0 <= nh,
            0 <= hd,
    ;
    match p {
        Projection::Query => row,
        Projection::Key => nh * hd + row,
        Projection::Value => nh * hd + nkv * hd + row,
    }
}

/// What is rotated for an item: a query head, or a key head, which is then
/// cached together with its value head.
#[derive(Clone, Copy, Debug, PartialEq, Eq, Structural)]
pub enum HeadItem {
    Query(usize),
    KeyValue(usize),
}

/// The head that item `i` of `nh + nkv` stands for.
pub fn head_item(i: usize, nh: usize, nkv: usize) -> (h: HeadItem)
    requires
        i < nh + nkv,
    ensures
        h == if i < nh {
            HeadItem::Query(i)
        } else {
            HeadItem::KeyValue((i - nh) as usize)
        },
        h matches HeadItem::KeyValue(k) ==> k < nkv,
{
    if i < nh {
        HeadItem::Query(i)
    } else {
        HeadItem::KeyValue(i - nh)
    }
}

// --------------------------------------------------------------- expert weights

/// The slot among the chosen experts, and the row of the weights of all experts,
/// that item `it` stands for, where each chosen expert has `per` items.
pub open spec fn expert_row_of(it: int, top: Seq<usize>, per: int) -> (int, int) {
    (it / per, top[it / per] * per + it % per)
}

/// The chosen experts are among `ne`.
pub open spec fn experts_below(top: Seq<usize>, ne: int) -> bool {
    forall|i: int| 0 <= i < top.len() ==> (#[trigger] top[i]) < ne
}

/// The slot and the row of item `it`.
pub fn expert_row(it: usize, top: &[usize], per: usize, ne: usize) -> (r: (usize, usize))
    requires
        it < top.len() * per,
        experts_below(top@, ne as int),
        ne * per <= usize::MAX,
    ensures
        (r.0 as int, r.1 as int) == expert_row_of(it as int, top@, per as int),
        r.0 < top.len(),
        r.1 < ne * per,
{
    assert(per > 0) by (nonlinear_arith)
        requires
            it < top.len() * per,
            0 <= it,
            0 <= per,
    ;
    proof {
        lemma_quotient(it as int, per as int, top.len() as int);
    }
    let slot: usize = it / per;
    let e: usize = top[slot];
    proof {
        assert(top@[slot as int] < ne);
        lemma_mul_inequality(e + 1, ne as int, per as int);
        lemma_mul_is_distributive_add_other_way(per as int, e as int, 1);
        assert(0 <= e * per) by (nonlinear_arith);
    }
    (slot, e * per + it % per)
}

/// Every row of every chosen expert is met by exactly one item of its slot.
pub proof fn expert_rows_are_met_once(top: Seq<usize>, per: int, slot: int, r: int)
    requires
        0 <= slot < top.len(),
        0 <= r < per,
    ensures
        0 <= slot * per + r < top.len() * per,
        expert_row_of(slot * per + r, top, per) == (slot, top[slot] * per + r),
        forall|it: int|
            0 <= it < top.len() * per && #[trigger] expert_row_of(it, top, per) == (
                slot,
                top[slot] * per + r,
            ) ==> it == slot * per + r,
{
    lemma_rebuild(slot, r, per);
    lemma_mul_inequality(slot + 1, top.len() as int, per);
    lemma_mul_is_distributive_add_other_way(per, slot, 1);
    assert(0 <= slot * per) by (nonlinear_arith)
        requires
            0 <= slot,
            0 <= per,
    ;
    assert forall|it: int|
        0 <= it < top.len() * per && #[trigger] expert_row_of(it, top, per) == (
            slot,
            top[slot] * per + r,
        ) implies it == slot * per + r by {
        lemma_quotient(it, per, top.len() as int);
    }
}

/// The weights of an item of the two input projections, gating and up: four rows at a time.
#[derive(Clone, Copy, Debug, PartialEq, Eq, Structural)]
pub struct GateUp {
    /// The slot among the chosen experts.
    pub slot: usize,
    /// Whether the rows are of the gating projection; else they are of the up one.
    pub gate: bool,
    /// The quad of rows among those of all experts.
    pub quad: usize,
    /// The first of the four biases, and of the rows, among those of all experts.
    pub row: usize,
    /// The first of the four places of the result.
    pub out: usize,
}

/// The weights that item `it` stands for, where an expert has `dq` quads of rows
/// in each of the two projections: for each slot the gating quads come first.
pub open spec fn gate_up_of(it: int, top: Seq<usize>, dq: int) -> (int, bool, int) {
    let slot = it / (2 * dq);
    let rem = it % (2 * dq);
    (
        slot,
        rem < dq,
        top[slot] * dq + if rem < dq {
            rem
        } else {
            rem - dq
        },
    )
}

/// The weights of item `it`, for rows of `d` numbers.
pub fn gate_up_item(it: usize, top: &[usize], d: usize, ne: usize) -> (g: GateUp)
    requires
        d % 4 == 0,
        it < top.len() * (2 * (d / 4)),
        experts_below(top@, ne as int),
        ne * d <= usize::MAX,
        top.len() * (2 * d) <= usize::MAX,
    ensures
        (g.slot as int, g.gate, g.quad as int) == gate_up_of(it as int, top@, d as int / 4),
        g.slot < top.len(),
        g.quad < ne * (d / 4),
        g.row == 4 * g.quad,
        g.row + 4 <= ne * d,
        g.out == 4 * it,
        g.out + 4 <= top.len() * (2 * d),
        (g.slot * (2 * d) + if g.gate {
            0
        } else {
            d as int
        }) + 4 * (g.quad - top@[g.slot as int] * (d / 4)) == g.out,
{
    let dq: usize = d / 4;
    assert(dq > 0) by (nonlinear_arith)
        requires
            it < top.len() * (2 * dq),
            0 <= it,
            0 <= dq,
    ;
    proof {
        lemma_quotient(it as int, 2 * dq as int, top.len() as int);
    }
    let slot: usize = it / (2 * dq);
    let rem: usize = it % (2 * dq);
    let e: usize = top[slot];
    let gate: bool = rem < dq;
    let qd: usize = if gate {
        rem
    } else {
        rem - dq
    };
    proof {
        assert(top@[slot as int] < ne);
        lemma_mul_inequality(e + 1, ne as int, dq as int);
        lemma_mul_is_distributive_add_other_way(dq as int, e as int, 1);
        assert(0 <= e * dq) by (nonlinear_arith);
        assert(ne * d == 4 * (ne * dq)) by (nonlinear_arith)
            requires
                d == 4 * dq,
        ;
        assert(top.len() * (2 * d) == 4 * (top.len() * (2 * dq))) by (nonlinear_arith)
            requires
                d == 4 * dq,
        ;
        assert(slot * (2 * d) == 4 * (slot * (2 * dq))) by (nonlinear_arith)
            requires
                d == 4 * dq,
        ;
    }
    let quad: usize = e * dq + qd;
    GateUp { slot, gate, quad, row: 4 * quad, out: 4 * it }
}

/// Every quad of both projections of every chosen expert is met by exactly one
/// item, and the results of different items do not overlap.
pub proof fn gate_up_items_are_met_once(top: Seq<usize>, dq: int, slot: int, gate: bool, qd: int)
    requires
        0 <= slot < top.len(),
        0 <= qd < dq,
    ensures
        ({
            let it = slot * (2 * dq) + if gate {
                qd
            } else {
                dq + qd
            };
            &&& 0 <= it < top.len() * (2 * dq)
            &&& gate_up_of(it, top, dq) == (slot, gate, top[slot] * dq + qd)
            &&& forall|other: int|
                0 <= other < top.len() * (2 * dq) && #[trigger] gate_up_of(other, top, dq) == (
                    slot,
                    gate,
                    top[slot] * dq + qd,
                ) ==> other == it
        }),
{
    let rem = if gate {
        qd
    } else {
        dq + qd
    };
    let it = slot * (2 * dq) + rem;
    lemma_rebuild(slot, rem, 2 * dq);
    lemma_mul_inequality(slot + 1, top.len() as int, 2 * dq);
    lemma_mul_is_distributive_add_other_way(2 * dq, slot, 1);
    assert(0 <= slot * (2 * dq)) by (nonlinear_arith)
        requires
            0 <= slot,
            0 <= dq,
    ;
    assert forall|other: int|
        0 <= other < top.len() * (2 * dq) && #[trigger] gate_up_of(other, top, dq) == (
            slot,
            gate,
            top[slot] * dq + qd,
        ) implies other == it by {
        lemma_quotient(other, 2 * dq, top.len() as int);
    }
}

/// Where the numbers of an item of the activation stand: a block of 32 of the gating
/// and of the up projection, and the block of the result.
#[derive(Clone, Copy, Debug, PartialEq, Eq, Structural)]
pub struct ActItem {
    pub gate: usize,
    pub up: usize,
    pub out: usize,
    pub scale: usize,
}

/// The places of activation item `it`, where a row has `nb` blocks of 32.
pub fn act_item(it: usize, nb: usize, topk: usize) -> (a: ActItem)
    requires
        it < topk * nb,
        topk * (2 * (32 * nb)) <= usize::MAX,
    ensures
        a.gate == (it / nb) * (2 * (32 * nb)) + 32 * (it % nb),
        a.up == a.gate + 32 * nb,
        a.up + 32 <= topk * (2 * (32 * nb)),
        a.out == 32 * it,
        a.out + 32 <= topk * (32 * nb),
        a.out == (it / nb) * (32 * nb) + 32 * (it % nb),
        a.scale == it,
{
    assert(nb > 0) by (nonlinear_arith)
        requires
            it < topk * nb,
            0 <= it,
            0 <= nb,
    ;
    let slot: usize = it / nb;
    let blk: usize = it % nb;
    proof {
        lemma_quotient(it as int, nb as int, topk as int);
        let row = 2 * (32 * nb);
        lemma_mul_inequality(slot + 1, topk as int, row);
        lemma_mul_is_distributive_add_other_way(row, slot as int, 1);
        assert(0 <= slot * row) by (nonlinear_arith)
            requires
                0 <= row,
        ;
        assert(row <= topk * row) by (nonlinear_arith)
            requires
                0 <= row,
                0 < topk,
        ;
        assert(slot * (32 * nb) == 32 * (slot * nb)) by (nonlinear_arith);
        assert(topk * (32 * nb) == 32 * (topk * nb)) by (nonlinear_arith);
        assert(topk * row == 2 * (topk * (32 * nb))) by (nonlinear_arith)
            requires
                row == 2 * (32 * nb),
        ;
    }
    let gate: usize = slot * (2 * (32 * nb)) + 32 * blk;
    ActItem { gate, up: gate + 32 * nb, out: 32 * it, scale: it }
}

// -------------------------------------------------------------- batched experts

/// The number of tokens of a tile of a batch.
pub const TILE: usize = 8;

/// The expert and the quad that item `it` of a batch stands for: each active
/// expert has `d` items, and every fourth of them stands for a quad.
pub open spec fn batch_of(it: int, active: Seq<usize>, d: int) -> Option<(int, int)> {
    if (it % d) % 4 == 0 {
        Some((active[it / d] as int, (it % d) / 4))
    } else {
        None
    }
}

/// The expert and the quad of item `it`.
pub fn batch_item(it: usize, active: &[usize], d: usize) -> (r: Option<(usize, usize)>)
    requires
        d % 4 == 0,
        it < active.len() * d,
    ensures
        match r {
            Some((e, quad)) => batch_of(it as int, active@, d as int) == Some(
                (e as int, quad as int),
            ) && active@.contains(e) && quad < d / 4,
            None => batch_of(it as int, active@, d as int) is None,
        },
{
    assert(d > 0) by (nonlinear_arith)
        requires
            it < active.len() * d,
            0 <= it,
            0 <= d,
    ;
    proof {
        lemma_quotient(it as int, d as int, active.len() as int);
    }
    let rr: usize = it % d;
    if rr % 4 != 0 {
        None
    } else {
        let e: usize = active[it / d];
        assert(active@[it as int / d as int] == e);
        Some((e, rr / 4))
    }
}

/// Every quad of every active expert is met by exactly one item.
pub proof fn batch_items_are_met_once(active: Seq<usize>, d: int, slot: int, quad: int)
    requires
        d % 4 == 0,
        0 <= slot < active.len(),
        0 <= quad < d / 4,
        forall|i: int, j: int| 0 <= i < j < active.len() ==> active[i] < active[j],
    ensures
        0 <= slot * d + 4 * quad < active.len() * d,
        batch_of(slot * d + 4 * quad, active, d) == Some((active[slot] as int, quad)),
        forall|it: int|
            0 <= it < active.len() * d && #[trigger] batch_of(it, active, d) == Some(
                (active[slot] as int, quad),
            ) ==> it == slot * d + 4 * quad,
{
    lemma_rebuild(slot, 4 * quad, d);
    lemma_mul_inequality(slot + 1, active.len() as int, d);
    lemma_mul_is_distributive_add_other_way(d, slot, 1);
    assert(0 <= slot * d) by (nonlinear_arith)
        requires
            0 <= slot,
            0 <= d,
    ;
    assert forall|it: int|
        0 <= it < active.len() * d && #[trigger] batch_of(it, active, d) == Some(
            (active[slot] as int, quad),
        ) implies it == slot * d + 4 * quad by {
        lemma_quotient(it, d, active.len() as int);
        let other = it / d;
        if other < slot {
            assert(active[other] < active[slot]);
        } else if other > slot {
            assert(active[slot] < active[other]);
        }
    }
}

/// The slot of choice `ei` of token `b` of a batch, and the place of quad `quad` of
/// its gate numbers among those of all slots; the up numbers stand `c.d` places on.
pub fn batch_place(c: &Cfg, b: usize, ei: usize, quad: usize) -> (r: (usize, usize))
    requires
        ei < c.topk,
        4 * quad + 4 <= c.d,
        (b + 1) * c.topk * (2 * c.d) <= usize::MAX,
    ensures
        r.0 == b * c.topk + ei,
        r.1 == r.0 * 2 * c.d + 4 * quad,
        r.0 < (b + 1) * c.topk,
        r.1 + c.d + 4 <= (r.0 + 1) * (2 * c.d),
{
    proof {
        lemma_slots_fit(b as int, ei as int, c.topk as int, c.d as int);
        let slot = b * c.topk + ei;
        assert(slot * 2 * c.d == slot * (2 * c.d) && (slot + 1) * (2 * c.d) == slot * (2 * c.d) + 2
            * c.d) by (nonlinear_arith);
    }
    let slot: usize = b * c.topk + ei;
    (slot, slot * 2 * c.d + 4 * quad)
}

/// The place of quad `quad` of the down projection of a slot of a batch.
pub fn batch_down_place(c: &Cfg, b: usize, ei: usize, quad: usize) -> (r: (usize, usize))
    requires
        ei < c.topk,
        4 * quad + 4 <= c.d,
        (b + 1) * c.topk * (2 * c.d) <= usize::MAX,
    ensures
        r.0 == b * c.topk + ei,
        r.1 == r.0 * c.d + 4 * quad,
        r.0 < (b + 1) * c.topk,
        r.1 + 4 <= (r.0 + 1) * c.d,
{
    proof {
        lemma_slots_fit(b as int, ei as int, c.topk as int, c.d as int);
        let slot = b * c.topk + ei;
        assert((slot + 1) * (2 * c.d) == 2 * (slot * c.d) + 2 * c.d) by (nonlinear_arith);
        assert((slot + 1) * c.d == slot * c.d + c.d) by (nonlinear_arith);
        assert(0 <= slot * c.d) by (nonlinear_arith)
            requires
                0 <= slot,
                0 <= c.d,
        ;
    }
    let slot: usize = b * c.topk + ei;
    (slot, slot * c.d + 4 * quad)
}

/// The token and the head of item `i` of the attention of a batch.
pub fn batch_head(i: usize, nh: usize) -> (r: (usize, usize))
    requires
        0 < nh,
    ensures
        i == r.0 * nh + r.1,
        r.1 < nh,
{
    proof {
        lemma_fundamental_div_mod(i as int, nh as int);
        lemma_mod_bound(i as int, nh as int);
        assert(nh * (i / nh) == (i / nh) * nh) by (nonlinear_arith);
    }
    (i / nh, i % nh)
}

proof fn lemma_slots_fit(b: int, ei: int, topk: int, d: int)
    requires
        0 <= b,
        0 <= ei < topk,
        4 <= d,
    ensures
        0 <= b * topk,
        b * topk + ei + 1 <= (b + 1) * topk,
        (b * topk + ei + 1) * (2 * d) <= (b + 1) * topk * (2 * d),
        0 <= (b * topk + ei) * 2 <= (b * topk + ei) * 2 * d,
        (b + 1) * topk <= (b + 1) * topk * (2 * d),
{
    assert((b + 1) * topk == b * topk + topk) by (nonlinear_arith);
    assert(0 <= b * topk) by (nonlinear_arith)
        requires
            0 <= b,
            0 <= topk,
    ;
    let (s, n) = (b * topk + ei, (b + 1) * topk);
    assert((s + 1) * (2 * d) <= n * (2 * d) && s * 2 <= s * 2 * d && n <= n * (2 * d))
        by (nonlinear_arith)
        requires
            0 <= s,
            s + 1 <= n,
            4 <= d,
    ;
}

/// Different quads of different slots of a batch have different places: no two
/// meet.
pub proof fn batch_places_are_apart(
    topk: int,
    d: int,
    b: int,
    ei: int,
    quad: int,
    b2: int,
    ei2: int,
    quad2: int,
)
    requires
        0 <= b,
        0 <= b2,
        0 <= ei < topk,
        0 <= ei2 < topk,
        0 <= quad,
        0 <= quad2,
        4 * quad + 4 <= d,
        4 * quad2 + 4 <= d,
        (b, ei, quad) != (b2, ei2, quad2),
    ensures
        ({
            let x = (b * topk + ei) * 2 * d + 4 * quad;
            let y = (b2 * topk + ei2) * 2 * d + 4 * quad2;
            x + 4 <= y || y + 4 <= x
        }),
{
    let (s, s2) = (b * topk + ei, b2 * topk + ei2);
    lemma_div_mod_of(b, topk, ei);
    lemma_div_mod_of(b2, topk, ei2);
    assert(s * 2 * d == s * (2 * d) && s2 * 2 * d == s2 * (2 * d)) by (nonlinear_arith);
    if s < s2 {
        assert(s * (2 * d) + 2 * d <= s2 * (2 * d)) by (nonlinear_arith)
            requires
                s + 1 <= s2,
                0 <= d,
        ;
    } else if s2 < s {
        assert(s2 * (2 * d) + 2 * d <= s * (2 * d)) by (nonlinear_arith)
            requires
                s2 + 1 <= s,
                0 <= d,
        ;
    } else {
        assert(b == b2 && ei == ei2);
    }
}

/// The members of a group that belong to the tokens `t0 .. t1`.
pub open spec fn within_tile(
    group: Seq<(usize, usize)>,
    t0: int,
    t1: int,
    n: int,
) -> Seq<(usize, usize)>
    decreases n,
{
    if n <= 0 {
        seq![]
    } else {
        let rest = within_tile(group, t0, t1, n - 1);
        if t0 <= group[n - 1].0 < t1 {
            rest.push(group[n - 1])
        } else {
            rest
        }
    }
}

/// The members of a group that belong to the tokens `t0 .. t1`, in order.
pub fn tile_members(group: &[(usize, usize)], t0: usize, t1: usize) -> (r: Vec<(usize, usize)>)
    ensures
        r@ == within_tile(group@, t0 as int, t1 as int, group.len() as int),
{
    let mut out: Vec<(usize, usize)> = Vec::new();
    for i in 0..group.len()
        invariant
            out@ == within_tile(group@, t0 as int, t1 as int, i as int),
    {
        let m: (usize, usize) = group[i];
        if t0 <= m.0 && m.0 < t1 {
            out.push(m);
        }
    }
    out
}

/// A member of a group is in a tile exactly where its token is.
pub proof fn tile_keeps_its_tokens(
    group: Seq<(usize, usize)>,
    t0: int,
    t1: int,
    n: int,
    m: (usize, usize),
)
    requires
        0 <= n <= group.len(),
    ensures
        within_tile(group, t0, t1, n).contains(m) <==> t0 <= m.0 < t1 && group.take(n).contains(m),
    decreases n,
{
    if n <= 0 {
        assert(group.take(n) =~= seq![]);
    } else {
        tile_keeps_its_tokens(group, t0, t1, n - 1, m);
        let rest = within_tile(group, t0, t1, n - 1);
        let last = group[n - 1];
        assert(group.take(n) =~= group.take(n - 1).push(last));
        assert(group.take(n - 1).push(last)[n - 1] == last);
        let head = group.take(n - 1);
        if head.contains(m) {
            let i = choose|i: int| 0 <= i < head.len() && head[i] == m;
            assert(head.push(last)[i] == m);
        }
        if rest.contains(m) {
            let i = choose|i: int| 0 <= i < rest.len() && rest[i] == m;
            assert(rest.push(last)[i] == m);
        }
        assert(rest.push(last)[rest.len() as int] == last);
        if rest.push(last).contains(m) && m != last {
            let all = rest.push(last);
            let i = choose|i: int| 0 <= i < all.len() && all[i] == m;
            assert(rest[i] == m);
        }
        if group.take(n).contains(m) && m != last {
            let all = group.take(n);
            let i = choose|i: int| 0 <= i < all.len() && all[i] == m;
            assert(head[i] == m);
        }
    }
}

// ------------------------------------------------------------------ flat quads

/// An item of the flat list of quads of all matrices of the chosen experts.
#[derive(Clone, Copy, Debug, PartialEq, Eq, Structural)]
pub struct FlatQuad {
    /// The place of the matrix among the active ones.
    pub active: usize,
    /// The expert.
    pub expert: usize,
    /// The matrix among those of the expert.
    pub mat: usize,
    /// The quad of rows in the matrix.
    pub quad: usize,
}

/// The item `gq`: each chosen expert has `mats` matrices of `quads` quads.
pub fn flat_quad(gq: usize, set: &[usize], mats: usize, quads: usize) -> (f: FlatQuad)
    requires
        gq < set.len() * mats * quads,
    ensures
        f.active == gq / quads,
        f.quad == gq % quads,
        f.quad < quads,
        f.active < set.len() * mats,
        f.mat == f.active % mats,
        f.mat < mats,
        f.active / mats < set.len(),
        f.expert == set@[f.active as int / mats as int],
        gq == f.active * quads + f.quad,
{
    let ghost count = set.len() * mats;
    assert(quads > 0 && mats > 0 && count > 0) by (nonlinear_arith)
        requires
            count == set.len() * mats,
            gq < count * quads,
            0 <= gq,
            0 <= quads,
            0 <= mats,
    ;
    proof {
        lemma_quotient(gq as int, quads as int, count as int);
        lemma_quotient(gq as int / quads as int, mats as int, set.len() as int);
    }
    let active: usize = gq / quads;
    FlatQuad { active, expert: set[active / mats], mat: active % mats, quad: gq % quads }
}

} // verus!
