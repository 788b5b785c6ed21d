//! What the items of a forward pass of the model with an attention window come to
//! where nothing rounds: its norms, levels, rotations, attention and activations.
use crate::activation::{block_gates, clamped_gate};
use crate::algebra::lemma_swap;
use crate::analytic::Analytic;
use crate::attend::{scores_of, taken_with_sink};
use crate::attention::first_seen;
use crate::batch::slot_gates;
use crate::config::Cfg;
use crate::dense::normed;
use crate::gptoss_pass::{Model, Shared, Turn};
use crate::ideal::{is_ideal, lemma_series_same, series};
use crate::ideal_attend::{
    key_product, scores_are_inner_products, shared_place, taken_with_sink_is_the_mean,
};
use crate::ideal_dense::{
    inverse_undoes_the_mean_square, lemma_squares, pair_at, products_add_up,
    rotation_turns_each_pair,
};
use crate::ideal_levels::{
    levels_stand_for_each_block, levels_stand_for_their_run, stands_for,
};
use crate::norm::{inverse_of, squares_of};
use crate::piece::Piece;
use crate::quantize::{levels_of, scales_of};
use crate::schedule::Phase;
use vstd::arithmetic::div_mod::lemma_fundamental_div_mod_converse;
use vstd::prelude::*;

verus! {

/// An item of the embedding is one number of the token's row, of which the weight file
/// holds the upper two bytes.
pub proof fn embed_item_is_its_number<S: Analytic>(
    model: Model<S>,
    c: Cfg,
    blob: Seq<u8>,
    layer: int,
    t: Turn<S>,
    b: Shared<S>,
    it: int,
    out: Seq<Piece<S>>,
)
    requires
        model.is_written(c, blob, Phase::Embed, layer, t, b, it, out),
    ensures
        out.len() == 1 && out[0] is Reals && out[0]->Reals_0@.len() == 1,
        ({
            let at = model.embed_at + 2 * (t.tok * c.d + it);
            out[0]->Reals_0@[0] == S::of_bits_spec(
                (0x1_0000 * (blob[at] + 256 * blob[at + 1])) as u32,
            )
        }),
{
}

/// An item of a norm is its number of the stream times one positive factor, the same for
/// all items, and times its weight: the square of the factor times the sum of the squares
/// of the whole stream, and `eps` for each number, is the width.
#[verifier::rlimit(40)]
pub proof fn norm_item_is_one_factor<S: Analytic>(
    v: spec_fn(S) -> real,
    model: Model<S>,
    c: Cfg,
    blob: Seq<u8>,
    phase: Phase,
    layer: int,
    t: Turn<S>,
    b: Shared<S>,
    it: int,
    out: Seq<Piece<S>>,
) -> (f: real)
    requires
        is_ideal(v),
        phase == Phase::AttnNorm || phase == Phase::FfnNorm || phase == Phase::HeadNorm,
        0 < c.d <= i64::MAX,
        b.stream@.len() == c.d,
        v(model.eps) >= 0real,
        series(c.d as int, |j: int| v(b.stream@[j]) * v(b.stream@[j])) + v(model.eps) > 0real,
        model.is_written(c, blob, phase, layer, t, b, it, out),
    ensures
        f > 0real,
        f * f * (series(c.d as int, |j: int| v(b.stream@[j]) * v(b.stream@[j])) + c.d as real * v(
            model.eps,
        )) == c.d as real,
        out.len() == 1 && out[0] is Reals && out[0]->Reals_0@.len() == 1,
        phase == Phase::AttnNorm ==> v(out[0]->Reals_0@[0]) == f * v(b.stream@[it]) * v(
            model.layers@[layer].attn_norm@[it],
        ),
        phase == Phase::FfnNorm ==> v(out[0]->Reals_0@[0]) == f * v(b.stream@[it]) * v(
            model.layers@[layer].ffn_norm@[it],
        ),
        phase == Phase::HeadNorm ==> v(out[0]->Reals_0@[0]) == f * v(b.stream@[it]) * v(
            model.out_norm@[it],
        ),
{
    let x = b.stream@;
    let n = c.d as int;
    let squares = squares_of(x);
    products_add_up(v, S::zero_spec(), x, 0, x, 0, n);
    lemma_squares(v, x, 0, n);
    lemma_series_same(n, pair_at(v, x, 0, x, 0), |j: int| v(x[j]) * v(x[j]));
    inverse_undoes_the_mean_square(v, squares, c.d, model.eps);
    let inv = inverse_of(squares, c.d, model.eps);
    let w = if phase == Phase::AttnNorm {
        model.layers@[layer].attn_norm@
    } else if phase == Phase::FfnNorm {
        model.layers@[layer].ffn_norm@
    } else {
        model.out_norm@
    };
    assert(out[0]->Reals_0@[0] == normed(x[it], inv, w[it]));
    lemma_swap(v(x[it]), v(inv));
    v(inv)
}

/// The levels and the scale of an item stand for its block of 32 numbers.
pub proof fn quant_item_stands_for_its_block<S: Analytic>(
    v: spec_fn(S) -> real,
    model: Model<S>,
    c: Cfg,
    blob: Seq<u8>,
    phase: Phase,
    layer: int,
    t: Turn<S>,
    b: Shared<S>,
    it: int,
    out: Seq<Piece<S>>,
)
    requires
        is_ideal(v),
        phase == Phase::AttnQuant || phase == Phase::FfnQuant || phase == Phase::HeadQuant,
        model.is_written(c, blob, phase, layer, t, b, it, out),
    ensures
        out.len() == 2 && out[0] is Levels && out[1] is Reals && out[1]->Reals_0@.len() == 1,
        stands_for(v, out[0]->Levels_0@, out[1]->Reals_0@[0], b.normed@, 32 * it, 32),
{
    levels_stand_for_their_run(v, out[0]->Levels_0@, b.normed@, 32 * it, 32);
}

/// A head is turned pair by pair, number `k` of its first half with number `k` of its
/// second, by the cosines and sines of the position; a key head goes to the cache as it
/// was turned, with the values of the same number as they are.
#[verifier::rlimit(40)]
pub proof fn rope_item_turns_its_head<S: Analytic>(
    v: spec_fn(S) -> real,
    model: Model<S>,
    c: Cfg,
    blob: Seq<u8>,
    layer: int,
    t: Turn<S>,
    b: Shared<S>,
    it: int,
    out: Seq<Piece<S>>,
    k: int,
)
    requires
        is_ideal(v),
        c.hd % 2 == 0,
        0 <= k < c.hd as int / 2,
        b.own@.len() == c.hd,
        it >= c.nh ==> 0 <= (it - c.nh) * c.hd && (it - c.nh) * c.hd + c.hd <= b.values@.len(),
        model.is_written(c, blob, Phase::Rope, layer, t, b, it, out),
    ensures
        out.len() == if it < c.nh {
            1int
        } else {
            3
        },
        out[0] is Reals && out[0]->Reals_0@.len() == c.hd,
        ({
            let half = c.hd as int / 2;
            let (x, y) = (v(b.own@[k]), v(b.own@[half + k]));
            let at = t.pos * c.hd + 2 * k;
            let (cosine, sine) = (v(model.turns@[at]), v(model.turns@[at + 1]));
            let head = out[0]->Reals_0@;
            &&& v(head[k]) == x * cosine - y * sine
            &&& v(head[half + k]) == x * sine + y * cosine
        }),
        it >= c.nh ==> out[1] is Reals && out[1]->Reals_0@ == out[0]->Reals_0@,
        it >= c.nh ==> out[2] is Reals && out[2]->Reals_0@.len() == c.hd && forall|j: int|
            0 <= j < c.hd ==> #[trigger] out[2]->Reals_0@[j] == b.values@[(it - c.nh) * c.hd + j],
{
    let half = c.hd as int / 2;
    assert(2 * half == c.hd);
    rotation_turns_each_pair(v, b.own@, 0, half, model.turns@, t.pos * c.hd, k);
    assert(0 + k == k && 0 + half + k == half + k);
}

/// An item of the attention takes the mean of the values at the positions that its layer
/// sees, each counted by the exponential of its score, and the sink of the head counted
/// in with no value. Layers with an even number see the last `swa` positions, the others
/// see all. A score is the inner product of query and key times one factor, of which the
/// square times the width of a head is one; `s` are the scores.
#[verifier::rlimit(40)]
pub proof fn attend_item_is_the_mean<S: Analytic>(
    v: spec_fn(S) -> real,
    model: Model<S>,
    c: Cfg,
    blob: Seq<u8>,
    layer: int,
    t: Turn<S>,
    b: Shared<S>,
    it: int,
    out: Seq<Piece<S>>,
) -> (r: (Seq<S>, real))
    requires
        is_ideal(v),
        0 < c.hd <= i64::MAX,
        c.hd % 32 == 0,
        0 < c.swa,
        0 <= layer,
        model.is_written(c, blob, Phase::Attend, layer, t, b, it, out),
    ensures
        out.len() == 3 && out[0] is Reals && out[0]->Reals_0@.len() == c.hd,
        r.1 > 0real,
        r.1 * r.1 * (c.hd as real) == 1real,
        ({
            let seen = if layer % 2 == 0 && t.pos >= c.swa {
                c.swa as int
            } else {
                t.pos + 1
            };
            let first = t.pos + 1 - seen;
            let base = layer * (4096 * c.nkv * c.hd);
            let sink = model.layers@[layer].sinks@[it];
            let s = r.0;
            &&& s.len() == seen
            &&& forall|i: int|
                0 <= i < seen ==> v(#[trigger] s[i]) == key_product(
                    v,
                    c,
                    it,
                    b.queries@,
                    b.key_cache@,
                    base,
                    first + i,
                ) * r.1
            &&& forall|j: int|
                0 <= j < c.hd ==> v(#[trigger] out[0]->Reals_0@[j]) * (v(sink.exp_spec()) + series(
                    seen,
                    |i: int| v(s[i].exp_spec()),
                )) == series(
                    seen,
                    |i: int|
                        v(b.value_cache@[shared_place(c, base, it, first + i, j)]) * v(
                            s[i].exp_spec(),
                        ),
                )
        }),
{
    let seen = if layer % 2 == 0 && t.pos >= c.swa {
        c.swa as int
    } else {
        t.pos + 1
    };
    let first = t.pos + 1 - seen;
    let base = layer * (4096 * c.nkv * c.hd);
    let sink = model.layers@[layer].sinks@[it];
    let (q, kc, vc) = (b.queries@, b.key_cache@, b.value_cache@);
    let scale = scores_are_inner_products(v, c, it, q, kc, base, first, seen);
    let s = scores_of(c, it, q, kc, base, first, seen);
    assert(first == first_seen(layer, t.pos as int, c.swa as int));
    assert forall|j: int| 0 <= j < c.hd implies v(#[trigger] out[0]->Reals_0@[j]) * (v(
        sink.exp_spec(),
    ) + series(seen, |i: int| v(s[i].exp_spec()))) == series(
        seen,
        |i: int| v(vc[shared_place(c, base, it, first + i, j)]) * v(s[i].exp_spec()),
    ) by {
        taken_with_sink_is_the_mean(v, c, it, q, kc, vc, base, first, seen, sink, j);
        assert(out[0]->Reals_0@[j] == taken_with_sink(
            c,
            it,
            q,
            kc,
            vc,
            base,
            first,
            seen,
            sink,
            j,
        ));
    }
    (s, scale)
}

/// The levels and the scales that an item of the attention leaves stand for what its head
/// takes, block by block.
pub proof fn attend_item_stands_for_its_head<S: Analytic>(
    v: spec_fn(S) -> real,
    model: Model<S>,
    c: Cfg,
    blob: Seq<u8>,
    layer: int,
    t: Turn<S>,
    b: Shared<S>,
    it: int,
    out: Seq<Piece<S>>,
    block: int,
)
    requires
        is_ideal(v),
        c.hd % 32 == 0,
        0 <= block < c.hd as int / 32,
        model.is_written(c, blob, Phase::Attend, layer, t, b, it, out),
    ensures
        out.len() == 3 && out[0] is Reals && out[1] is Levels && out[2] is Reals,
        out[1]->Levels_0@.len() == c.hd && out[2]->Reals_0@.len() == c.hd as int / 32,
        stands_for(
            v,
            out[1]->Levels_0@.subrange(32 * block, 32 * block + 32),
            out[2]->Reals_0@[block],
            out[0]->Reals_0@,
            32 * block,
            32,
        ),
{
    let head = out[0]->Reals_0@;
    assert(head.len() == c.hd);
    levels_stand_for_each_block(v, head, block);
    assert(out[2]->Reals_0@[block] == scales_of(head)[block]);
}

/// The levels and scales of a slot of a batch stand for its clamped activations, block by
/// block: of a slot the gating numbers stand first and the others behind them.
pub proof fn batch_hidden_stands_for_its_slot<S: Analytic>(
    v: spec_fn(S) -> real,
    gu: Seq<S>,
    slot: int,
    d: int,
    block: int,
) -> (h: Seq<S>)
    requires
        is_ideal(v),
        0 <= d,
        d % 32 == 0,
        0 <= block < d / 32,
    ensures
        h.len() == d,
        forall|k: int|
            0 <= k < d ==> #[trigger] h[k] == clamped_gate(
                gu[slot * (2 * d) + k],
                gu[slot * (2 * d) + d + k],
            ),
        levels_of(slot_gates(gu, slot, d)).len() == d,
        scales_of(slot_gates(gu, slot, d)).len() == d / 32,
        stands_for(
            v,
            levels_of(slot_gates(gu, slot, d)).subrange(32 * block, 32 * block + 32),
            scales_of(slot_gates(gu, slot, d))[block],
            h,
            32 * block,
            32,
        ),
{
    let h = slot_gates(gu, slot, d);
    levels_stand_for_each_block(v, h, block);
    h
}

/// An item of the activations takes block `block` of chosen expert `slot`, of which the
/// gating numbers stand first and the others behind them; its levels and its scale stand
/// for the clamped activations `h`.
#[verifier::rlimit(40)]
pub proof fn activate_item_stands_for_its_block<S: Analytic>(
    v: spec_fn(S) -> real,
    model: Model<S>,
    c: Cfg,
    blob: Seq<u8>,
    layer: int,
    t: Turn<S>,
    b: Shared<S>,
    slot: int,
    block: int,
    out: Seq<Piece<S>>,
) -> (h: Seq<S>)
    requires
        is_ideal(v),
        c.d % 32 == 0,
        0 <= slot,
        0 <= block < c.d as int / 32,
        model.is_written(
            c,
            blob,
            Phase::Activate,
            layer,
            t,
            b,
            slot * (c.d as int / 32) + block,
            out,
        ),
    ensures
        out.len() == 2 && out[0] is Levels && out[1] is Reals && out[1]->Reals_0@.len() == 1,
        h.len() == 32,
        forall|k: int|
            0 <= k < 32 ==> #[trigger] h[k] == clamped_gate(
                b.hidden@[slot * (2 * c.d) + 32 * block + k],
                b.hidden@[slot * (2 * c.d) + c.d + 32 * block + k],
            ),
        stands_for(v, out[0]->Levels_0@, out[1]->Reals_0@[0], h, 0, 32),
{
    let nb = c.d as int / 32;
    let it = slot * nb + block;
    lemma_fundamental_div_mod_converse(it, nb, slot, block);
    assert(32 * nb == c.d);
    let gate = slot * (2 * (32 * nb)) + 32 * block;
    let h = block_gates(b.hidden@, gate, gate + 32 * nb);
    levels_stand_for_their_run(v, out[0]->Levels_0@, h, 0, 32);
    assert forall|k: int| 0 <= k < 32 implies #[trigger] h[k] == clamped_gate(
        b.hidden@[slot * (2 * c.d) + 32 * block + k],
        b.hidden@[slot * (2 * c.d) + c.d + 32 * block + k],
    ) by {
        assert(gate + 32 * nb + k == slot * (2 * c.d) + c.d + 32 * block + k);
    }
    h
}

} // verus!
