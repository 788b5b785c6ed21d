//! What each work item of a forward pass of the model with an attention window
//! writes, from what the shared buffers hold.
use crate::access::{
    gptoss_items_never_meet, gptoss_reads, gptoss_spans, gptoss_writes, unparted, Place, Store,
};
use crate::activation::{activate, block_gates};
use crate::analytic::Analytic;
use crate::attend::{attend_with_sink, scores_of, taken_with_sink};
use crate::attention::{
    cache_place, first_seen, lane_sum, lane_sums, layers_are_cached, shared_head, MAXSEQ,
};
use crate::config::{product, Cfg};
use crate::dense::{normed, rope, sum_squares, turned};
use crate::gptoss::Layer;
use crate::lanes::Chain;
use crate::norm::{inverse_of, inverse_rms, squares_of};
use crate::order::{rewrites, same_in};
use crate::piece::{four_reals, one_real, only_reals, Piece};
use crate::q8::{rows_are_held, Q8Mat};
use crate::quantize::{
    lemma_peak_same, level_of, levels_of, quant_i8, quant_run, scale_of, scales_of,
};
use crate::routing::{experts_below, gate_up_of, head_item, projected, HeadItem};
use crate::scalar::Scalar;
use crate::schedule::{
    gptoss_head, gptoss_items_of, gptoss_layer, gptoss_syncs, of_a_layer, of_layer, step_of, Phase,
};
use crate::tensors::{bf16_run, bf16_value};
use vstd::arithmetic::mul::{lemma_mul_inequality, lemma_mul_is_distributive_add_other_way};
use vstd::prelude::*;
use vstd::slice::{slice_subrange, slice_to_vec};

verus! {

/// The weights of a model, except the embedding, which stays in the weight file at
/// place `embed_at`; the cosines and sines of all positions; what the exponent bytes
/// stand for; and how the rows in 8-bit blocks are added up.
pub struct Model<S> {
    pub layers: Vec<Layer<S>>,
    pub out_norm: Vec<S>,
    pub head: Q8Mat<S>,
    pub eps: S,
    pub turns: Vec<S>,
    pub pow: Vec<S>,
    pub embed_at: usize,
    pub chain: Chain,
}

/// What an item reads of the shared buffers. `own` holds the numbers that the item
/// rewrites: those of the stream, or those of a head.
pub struct Shared<'a, S> {
    pub own: &'a [S],
    pub stream: &'a [S],
    pub normed: &'a [S],
    pub levels: &'a [i8],
    pub scales: &'a [S],
    pub queries: &'a [S],
    pub values: &'a [S],
    pub key_cache: &'a [S],
    pub value_cache: &'a [S],
    pub mixed_levels: &'a [i8],
    pub mixed_scales: &'a [S],
    pub hidden: &'a [S],
    pub hidden_levels: &'a [i8],
    pub hidden_scales: &'a [S],
}

/// The token that a pass is for, its position, and what its router has chosen.
pub struct Turn<'a, S> {
    pub tok: u32,
    pub pos: usize,
    pub top: &'a [usize],
    pub weights: &'a [S],
}

impl<'a, S: Analytic> Turn<'a, S> {
    /// The token is one of the vocabulary, and its position fits the caches.
    pub open spec fn fits(&self, c: Cfg) -> bool {
        self.tok < c.nvocab && self.pos < MAXSEQ
    }

    /// The router has chosen.
    pub open spec fn has_chosen(&self, c: Cfg) -> bool {
        &&& self.top@.len() == c.topk && self.weights@.len() == c.topk
        &&& experts_below(self.top@, c.ne as int)
    }
}

impl<'a, S: Analytic> Shared<'a, S> {
    /// The buffers that item `it` of a phase reads have their sizes.
    pub open spec fn serves(&self, phase: Phase, c: Cfg, it: int) -> bool {
        match phase {
            Phase::AttnNorm | Phase::FfnNorm | Phase::HeadNorm => self.stream@.len() == c.d,
            Phase::AttnQuant | Phase::FfnQuant | Phase::HeadQuant | Phase::Route => {
                self.normed@.len() == c.d
            },
            Phase::Qkv | Phase::GateUp | Phase::Head => {
                self.levels@.len() == c.d && self.scales@.len() == c.d / 32
            },
            Phase::Rope => {
                self.own@.len() == c.hd && (it >= c.nh ==> self.values@.len() == c.nkv * c.hd)
            },
            Phase::Attend => {
                &&& self.queries@.len() == c.nh * c.hd
                &&& self.key_cache@.len() == c.nl * (4096 * c.nkv * c.hd)
                &&& self.value_cache@.len() == c.nl * (4096 * c.nkv * c.hd)
            },
            Phase::Project => {
                &&& self.own@.len() == 1
                &&& self.mixed_levels@.len() == c.nh * c.hd
                &&& self.mixed_scales@.len() == c.nh * (c.hd as int / 32)
            },
            Phase::Activate => self.hidden@.len() == c.topk * (2 * c.d),
            Phase::Down => {
                &&& self.own@.len() == 4
                &&& self.hidden_levels@.len() == c.topk * c.d
                &&& self.hidden_scales@.len() == c.topk * (c.d as int / 32)
            },
            _ => true,
        }
    }
}

/// The levels of block `b` of 32 numbers.
pub open spec fn block_at<S: Analytic>(x: Seq<S>, b: int) -> Seq<i8> {
    Seq::new(32, |k: int| level_of(x[32 * b + k], scale_of(x, 32 * b, 32)))
}

/// What query head `h` of a layer takes from the caches of all layers.
pub open spec fn taken_head<S: Analytic>(
    c: Cfg,
    layer: int,
    pos: int,
    h: int,
    q: Seq<S>,
    kc: Seq<S>,
    vc: Seq<S>,
    sink: S,
) -> Seq<S> {
    let start = first_seen(layer, pos, c.swa as int);
    let base = layer * (4096 * c.nkv * c.hd);
    Seq::new(
        c.hd as nat,
        |j: int| taken_with_sink(c, h, q, kc, vc, base, start, pos - start + 1, sink, j),
    )
}

/// The four results of item `it` of the input projections of a layer.
pub open spec fn gate_up_four<S: Analytic>(
    l: Layer<S>,
    c: Cfg,
    it: int,
    top: Seq<usize>,
    x: Seq<i8>,
    xs: Seq<S>,
    pow: Seq<S>,
) -> Seq<S> {
    let (_, gate, quad) = gate_up_of(it, top, c.d as int / 4);
    Seq::new(4, |i: int| l.gate_up_value(c, gate, quad, i, x, xs, pow))
}

/// The four numbers of the stream that quad `quad` of the down projections of a
/// layer adds to; they were `own` before.
pub open spec fn stream_four<S: Analytic>(
    l: Layer<S>,
    c: Cfg,
    quad: int,
    own: Seq<S>,
    top: Seq<usize>,
    weights: Seq<S>,
    h: Seq<i8>,
    hs: Seq<S>,
    pow: Seq<S>,
) -> Seq<S> {
    Seq::new(
        4,
        |i: int|
            l.stream_value(c, quad, i, own[i], top, weights, h, hs, pow, c.topk as int),
    )
}

/// A head, turned by the cosines and sines from place `tat` on.
pub open spec fn turned_head<S: Scalar>(v: Seq<S>, table: Seq<S>, tat: int) -> Seq<S> {
    Seq::new(v.len(), |j: int| turned(v, 0, v.len() as int / 2, table, tat, j))
}

impl<S: Analytic> Model<S> {
    /// The weights have the sizes of the configuration, and the embedding lies in a
    /// weight file of `len` bytes.
    pub open spec fn fits(&self, c: Cfg, len: int) -> bool {
        &&& c.is_sound() && c.is_gptoss()
        &&& self.layers@.len() == c.nl
        &&& forall|i: int| 0 <= i < c.nl ==> (#[trigger] self.layers@[i]).fits(c)
        &&& self.out_norm@.len() >= c.d
        &&& self.head.cols == c.d && self.head.has_rows(c.nvocab as int)
        &&& self.turns@.len() >= 4096 * c.hd
        &&& self.pow@.len() == 256
        &&& self.embed_at + 2 * (c.nvocab * c.d) <= len
    }

    /// Whether the weights have the sizes of the configuration, and the embedding
    /// lies in a weight file of `len` bytes.
    pub fn fit(&self, c: &Cfg, len: usize) -> (r: bool)
        ensures
            r == self.fits(*c, len as int),
    {
        if !c.sound() || !c.serves_gptoss() || self.layers.len() != c.nl {
            return false;
        }
        for i in 0..c.nl
            invariant
                c.is_sound(),
                self.layers@.len() == c.nl,
                forall|k: int| 0 <= k < i ==> (#[trigger] self.layers@[k]).fits(*c),
        {
            if !self.layers[i].fit(c) {
                return false;
            }
        }
        let embed: u128 = product(c.nvocab, c.d);
        let rows: u128 = product(c.nvocab, c.d / 32);
        self.out_norm.len() >= c.d && self.head.cols == c.d && embed <= self.head.q.len() as u128
            && rows <= self.head.s.len() as u128 && self.turns.len() >= 4096 * 64 && self.pow.len()
            == 256 && embed <= len as u128 && self.embed_at as u128 + 2 * embed <= len as u128
    }

    /// The weights of the norm of a phase.
    pub open spec fn norm_weights(&self, phase: Phase, layer: int) -> Seq<S> {
        match phase {
            Phase::AttnNorm => self.layers@[layer].attn_norm@,
            Phase::FfnNorm => self.layers@[layer].ffn_norm@,
            _ => self.out_norm@,
        }
    }

    /// What item `it` of a phase writes: `out` holds the contents of its runs.
    pub open spec fn is_written(
        &self,
        c: Cfg,
        blob: Seq<u8>,
        phase: Phase,
        layer: int,
        t: Turn<S>,
        b: Shared<S>,
        it: int,
        out: Seq<Piece<S>>,
    ) -> bool {
        let l = self.layers@[layer];
        match phase {
            Phase::Embed => {
                only_reals(out, seq![bf16_value(blob, self.embed_at as int, t.tok * c.d + it)])
            },
            Phase::AttnNorm | Phase::FfnNorm | Phase::HeadNorm => {
                let inv = inverse_of(squares_of(b.stream@), c.d, self.eps);
                let w = self.norm_weights(phase, layer);
                only_reals(out, seq![normed(b.stream@[it], inv, w[it])])
            },
            Phase::AttnQuant | Phase::FfnQuant | Phase::HeadQuant => {
                &&& out.len() == 2
                &&& out[0].holds_levels(block_at(b.normed@, it))
                &&& out[1].holds_reals(seq![scale_of(b.normed@, 32 * it, 32)])
            },
            Phase::Qkv => {
                let (p, row) = projected(it, c.nh as int, c.nkv as int, c.hd as int);
                only_reals(out, seq![l.qkv_value(p, row, b.levels@, b.scales@, self.chain)])
            },
            Phase::Rope => {
                let (h, hd) = (it - c.nh, c.hd as int);
                let head = turned_head(b.own@, self.turns@, t.pos * c.hd);
                if it < c.nh {
                    only_reals(out, head)
                } else {
                    &&& out.len() == 3
                    &&& out[0].holds_reals(head)
                    &&& out[1].holds_reals(head)
                    &&& out[2].holds_reals(b.values@.subrange(h * hd, h * hd + hd))
                }
            },
            Phase::Attend => {
                let head = taken_head(
                    c,
                    layer,
                    t.pos as int,
                    it,
                    b.queries@,
                    b.key_cache@,
                    b.value_cache@,
                    l.sinks@[it],
                );
                &&& out.len() == 3
                &&& out[0].holds_reals(head)
                &&& out[1].holds_levels(levels_of(head))
                &&& out[2].holds_reals(scales_of(head))
            },
            Phase::Project => {
                let (q, s) = (b.mixed_levels@, b.mixed_scales@);
                only_reals(out, seq![l.projected_value(it, b.own@[0], q, s, self.chain)])
            },
            Phase::Route => only_reals(out, seq![l.route_value(c, it, b.normed@)]),
            Phase::GateUp => {
                only_reals(
                    out,
                    gate_up_four(l, c, it, t.top@, b.levels@, b.scales@, self.pow@),
                )
            },
            Phase::Activate => {
                let nb = c.d as int / 32;
                let gate = (it / nb) * (2 * (32 * nb)) + 32 * (it % nb);
                let h = block_gates(b.hidden@, gate, gate + 32 * nb);
                &&& out.len() == 2
                &&& out[0].holds_levels(block_at(h, 0))
                &&& out[1].holds_reals(seq![scale_of(h, 0, 32)])
            },
            Phase::Down => {
                let (h, hs) = (b.hidden_levels@, b.hidden_scales@);
                only_reals(
                    out,
                    stream_four(l, c, it, b.own@, t.top@, t.weights@, h, hs, self.pow@),
                )
            },
            Phase::Head => {
                only_reals(
                    out,
                    seq![self.head.row_value(it, b.levels@, b.scales@, self.chain)],
                )
            },
            _ => out.len() == 0,
        }
    }

    /// What the norms of a phase multiply with.
    pub fn inverse(&self, stream: &[S]) -> (r: S)
        ensures
            r == inverse_of(squares_of(stream@), stream.len(), self.eps),
    {
        inverse_rms(sum_squares(stream, 0, stream.len()), stream.len(), self.eps)
    }

    /// One number of the token's row of the embedding.
    fn embed_item(&self, c: &Cfg, blob: &[u8], tok: u32, it: usize) -> (r: Vec<Piece<S>>)
        requires
            self.fits(*c, blob@.len() as int),
            tok < c.nvocab,
            it < c.d,
        ensures
            only_reals(r@, seq![bf16_value(blob@, self.embed_at as int, tok * c.d + it)]),
    {
        proof {
            lemma_mul_inequality(tok + 1, c.nvocab as int, c.d as int);
            lemma_mul_is_distributive_add_other_way(c.d as int, tok as int, 1);
            assert(0 <= tok * c.d) by (nonlinear_arith)
                requires
                    0 <= tok,
                    0 <= c.d,
            ;
            assert(blob@.len() == blob.len());
        }
        let bits: Vec<u32> = bf16_run(blob, self.embed_at, tok as usize * c.d + it, 1);
        one_real(S::of_bits(bits[0]))
    }

    /// The turned head, and for a key head the new entries of the caches.
    fn rope_item(&self, c: &Cfg, pos: usize, own: &[S], values: &[S], it: usize) -> (r: Vec<
        Piece<S>,
    >)
        requires
            c.is_sound(),
            pos < MAXSEQ,
            self.turns@.len() >= 4096 * c.hd,
            it < c.nh + c.nkv,
            own.len() == c.hd,
            it >= c.nh ==> values.len() == c.nkv * c.hd,
        ensures
            ({
                let (h, hd) = (it - c.nh, c.hd as int);
                let head = turned_head(own@, self.turns@, pos * c.hd);
                if it < c.nh {
                    only_reals(r@, head)
                } else {
                    &&& r@.len() == 3
                    &&& r@[0].holds_reals(head)
                    &&& r@[1].holds_reals(head)
                    &&& r@[2].holds_reals(values@.subrange(h * hd, h * hd + hd))
                }
            }),
    {
        proof {
            lemma_mul_inequality(pos + 1, 4096, c.hd as int);
            lemma_mul_is_distributive_add_other_way(c.hd as int, pos as int, 1);
            assert(0 <= pos * c.hd) by (nonlinear_arith)
                requires
                    0 <= pos,
                    0 <= c.hd,
            ;
            assert(self.turns@.len() == self.turns.len() && own@.len() == own.len());
        }
        let mut head: Vec<S> = slice_to_vec(own);
        rope(head.as_mut_slice(), 0, c.hd / 2, self.turns.as_slice(), pos * c.hd);
        assert(head@ =~= turned_head(own@, self.turns@, pos * c.hd));
        match head_item(it, c.nh, c.nkv) {
            HeadItem::Query(_) => vec![Piece::Reals(head)],
            HeadItem::KeyValue(h) => {
                proof {
                    lemma_mul_inequality(h + 1, c.nkv as int, c.hd as int);
                    lemma_mul_is_distributive_add_other_way(c.hd as int, h as int, 1);
                    assert(0 <= h * c.hd) by (nonlinear_arith)
                        requires
                            0 <= h,
                            0 <= c.hd,
                    ;
                    assert(values@.len() == values.len());
                }
                let keys: Vec<S> = slice_to_vec(head.as_slice());
                let v: Vec<S> = slice_to_vec(slice_subrange(values, h * c.hd, h * c.hd + c.hd));
                vec![Piece::Reals(head), Piece::Reals(keys), Piece::Reals(v)]
            },
        }
    }
}

/// What query head `it` takes from the caches, in numbers and in levels with their
/// scales.
fn attend_item<S: Analytic>(
    c: &Cfg,
    layer: usize,
    pos: usize,
    queries: &[S],
    kc: &[S],
    vc: &[S],
    sink: S,
    it: usize,
) -> (r: Vec<Piece<S>>)
    requires
        c.is_sound(),
        c.is_gptoss(),
        layer < c.nl,
        pos < MAXSEQ,
        it < c.nh,
        queries.len() == c.nh * c.hd,
        kc.len() == c.nl * (4096 * c.nkv * c.hd),
        vc.len() == c.nl * (4096 * c.nkv * c.hd),
    ensures
        ({
            let head = taken_head(
                *c,
                layer as int,
                pos as int,
                it as int,
                queries@,
                kc@,
                vc@,
                sink,
            );
            &&& r@.len() == 3
            &&& r@[0].holds_reals(head)
            &&& r@[1].holds_levels(levels_of(head))
            &&& r@[2].holds_reals(scales_of(head))
        }),
{
    proof {
        layers_are_cached(c.nl as int, layer as int, pos as int, c.nkv as int, c.hd as int);
        lemma_mul_inequality(it + 1, c.nh as int, c.hd as int);
        let per = 4096 * c.nkv * c.hd;
        assert(0 <= 4096 * c.nkv <= per <= c.nl * per) by (nonlinear_arith)
            requires
                per == 4096 * c.nkv * c.hd,
                c.hd > 0,
                c.nl > 0,
        ;
    }
    let base: usize = layer * (4096 * c.nkv * c.hd);
    let head: Vec<S> = attend_with_sink(c, layer, it, queries, kc, vc, base, pos, sink);
    assert(head@ =~= taken_head(
        *c,
        layer as int,
        pos as int,
        it as int,
        queries@,
        kc@,
        vc@,
        sink,
    ));
    let (levels, scales) = quant_i8(head.as_slice());
    vec![Piece::Reals(head), Piece::Levels(levels), Piece::Reals(scales)]
}

/// The activations of a block of 32, in levels with their scale.
fn activate_item<S: Analytic>(c: &Cfg, hidden: &[S], it: usize) -> (r: Vec<Piece<S>>)
    requires
        c.is_sound(),
        it < c.topk * (c.d as int / 32),
        hidden.len() == c.topk * (2 * c.d),
    ensures
        ({
            let nb = c.d as int / 32;
            let gate = (it as int / nb) * (2 * (32 * nb)) + 32 * (it as int % nb);
            let h = block_gates(hidden@, gate, gate + 32 * nb);
            &&& r@.len() == 2
            &&& r@[0].holds_levels(block_at(h, 0))
            &&& r@[1].holds_reals(seq![scale_of(h, 0, 32)])
        }),
{
    let (a, levels, scale) = activate(hidden, it, c.d / 32, c.topk);
    proof {
        let h = block_gates(hidden@, a.gate as int, a.up as int);
        assert(levels@ =~= block_at(h, 0));
    }
    let s: Vec<S> = vec![scale];
    assert(s@ =~= seq![scale]);
    vec![Piece::Levels(levels), Piece::Reals(s)]
}

impl<S: Analytic> Model<S> {
    /// Item `it` of the input projections of the chosen experts.
    fn gate_up_item(&self, c: &Cfg, layer: usize, top: &[usize], xq: &[i8], xs: &[S], it: usize) -> (r:
        Vec<Piece<S>>)
        requires
            c.is_sound(),
            layer < self.layers@.len(),
            self.layers@[layer as int].fits(*c),
            self.pow@.len() == 256,
            top@.len() == c.topk,
            experts_below(top@, c.ne as int),
            it < c.topk * (2 * (c.d as int / 4)),
            xq.len() == c.d,
            xs.len() == c.d / 32,
        ensures
            only_reals(
                r@,
                gate_up_four(
                    self.layers@[layer as int],
                    *c,
                    it as int,
                    top@,
                    xq@,
                    xs@,
                    self.pow@,
                ),
            ),
    {
        let (_, four) = self.layers[layer].gate_up(c, it, top, xq, xs, self.pow.as_slice());
        assert(four@ =~= gate_up_four(
            self.layers@[layer as int],
            *c,
            it as int,
            top@,
            xq@,
            xs@,
            self.pow@,
        ));
        four_reals(four)
    }

    /// The four numbers of the stream that quad `it` of the down projections adds to.
    fn down_item(
        &self,
        c: &Cfg,
        layer: usize,
        t: &Turn<S>,
        own: &[S],
        hq: &[i8],
        hs: &[S],
        it: usize,
    ) -> (r: Vec<Piece<S>>)
        requires
            c.is_sound(),
            layer < self.layers@.len(),
            self.layers@[layer as int].fits(*c),
            self.pow@.len() == 256,
            t.has_chosen(*c),
            it < c.d / 4,
            own.len() == 4,
            hq.len() == c.topk * c.d,
            hs.len() == c.topk * (c.d as int / 32),
        ensures
            only_reals(
                r@,
                stream_four(
                    self.layers@[layer as int],
                    *c,
                    it as int,
                    own@,
                    t.top@,
                    t.weights@,
                    hq@,
                    hs@,
                    self.pow@,
                ),
            ),
    {
        let x: [S; 4] = [own[0], own[1], own[2], own[3]];
        let four: [S; 4] = self.layers[layer].down(
            c,
            it,
            x,
            t.top,
            t.weights,
            hq,
            hs,
            self.pow.as_slice(),
        );
        assert(four@ =~= stream_four(
            self.layers@[layer as int],
            *c,
            it as int,
            own@,
            t.top@,
            t.weights@,
            hq@,
            hs@,
            self.pow@,
        ));
        four_reals(four)
    }

    /// What item `it` of a phase that needs the weights of a layer writes.
    fn layer_item(
        &self,
        c: &Cfg,
        phase: Phase,
        layer: usize,
        t: &Turn<S>,
        b: &Shared<S>,
        inv: S,
        it: usize,
    ) -> (r: Vec<Piece<S>>)
        requires
            c.is_sound(),
            c.is_gptoss(),
            layer < c.nl,
            self.layers@.len() == c.nl,
            self.layers@[layer as int].fits(*c),
            self.turns@.len() >= 4096 * c.hd,
            self.pow@.len() == 256,
            of_layer(phase),
            t.fits(*c),
            phase == Phase::GateUp || phase == Phase::Down ==> t.has_chosen(*c),
            b.serves(phase, *c, it as int),
            phase == Phase::AttnNorm || phase == Phase::FfnNorm ==> inv == inverse_of(
                squares_of(b.stream@),
                c.d,
                self.eps,
            ),
            it < gptoss_items_of(phase, *c),
        ensures
            forall|blob: Seq<u8>|
                self.is_written(*c, blob, phase, layer as int, *t, *b, it as int, r@),
    {
        let l: &Layer<S> = &self.layers[layer];
        match phase {
            Phase::AttnNorm => one_real(b.stream[it].times(inv).times(l.attn_norm[it])),
            Phase::FfnNorm => one_real(b.stream[it].times(inv).times(l.ffn_norm[it])),
            Phase::Qkv => {
                let (_, _, v) = l.qkv(c, it, b.levels, b.scales, self.chain);
                one_real(v)
            },
            Phase::Rope => self.rope_item(c, t.pos, b.own, b.values, it),
            Phase::Attend => {
                let sink: S = l.sinks[it];
                attend_item(c, layer, t.pos, b.queries, b.key_cache, b.value_cache, sink, it)
            },
            Phase::Project => {
                assert(c.nh * c.hd == 64 * c.nh && c.nh * (c.hd as int / 32) == 2 * c.nh)
                    by (nonlinear_arith)
                    requires
                        c.hd == 64,
                ;
                let (q, s) = (b.mixed_levels, b.mixed_scales);
                one_real(l.project(c, it, b.own[0], q, s, self.chain))
            },
            Phase::Route => one_real(l.route(c, it, b.normed)),
            Phase::GateUp => self.gate_up_item(c, layer, t.top, b.levels, b.scales, it),
            _ => self.down_item(c, layer, t, b.own, b.hidden_levels, b.hidden_scales, it),
        }
    }

    /// What item `it` of a phase writes. `inv` is what the norms of the phase
    /// multiply with.
    pub fn item(
        &self,
        c: &Cfg,
        blob: &[u8],
        phase: Phase,
        layer: usize,
        t: &Turn<S>,
        b: &Shared<S>,
        inv: S,
        it: usize,
    ) -> (r: Vec<Piece<S>>)
        requires
            self.fits(*c, blob@.len() as int),
            of_layer(phase) ==> layer < c.nl,
            t.fits(*c),
            phase == Phase::GateUp || phase == Phase::Down ==> t.has_chosen(*c),
            b.serves(phase, *c, it as int),
            phase == Phase::AttnNorm || phase == Phase::FfnNorm || phase == Phase::HeadNorm ==> inv
                == inverse_of(squares_of(b.stream@), c.d, self.eps),
            it < gptoss_items_of(phase, *c),
        ensures
            self.is_written(*c, blob@, phase, layer as int, *t, *b, it as int, r@),
    {
        match phase {
            Phase::Embed => self.embed_item(c, blob, t.tok, it),
            Phase::HeadNorm => one_real(b.stream[it].times(inv).times(self.out_norm[it])),
            Phase::AttnQuant | Phase::FfnQuant | Phase::HeadQuant => quant_item(b.normed, it),
            Phase::Head => {
                proof {
                    rows_are_held(self.head, c.nvocab as int, it as int);
                }
                one_real(self.head.dot(it, b.levels, b.scales, self.chain))
            },
            Phase::Activate => activate_item(c, b.hidden, it),
            _ => if of_a_layer(phase) {
                self.layer_item(c, phase, layer, t, b, inv, it)
            } else {
                Vec::new()
            },
        }
    }
}

/// The levels of a block of 32 numbers, and their scale.
fn quant_item<S: Analytic>(x: &[S], it: usize) -> (r: Vec<Piece<S>>)
    requires
        32 * it + 32 <= x.len(),
    ensures
        r@.len() == 2,
        r@[0].holds_levels(block_at(x@, it as int)),
        r@[1].holds_reals(seq![scale_of(x@, 32 * it, 32)]),
{
    let (levels, scale) = quant_run(x, 32 * it, 32);
    assert(levels@ =~= block_at(x@, it as int));
    let s: Vec<S> = vec![scale];
    assert(s@ =~= seq![scale]);
    vec![Piece::Levels(levels), Piece::Reals(s)]
}

// ------------------------------------------------------------- what is not read

/// Two views of the shared buffers hold the same at a place.
pub open spec fn same_at<S: Analytic>(a: Shared<S>, b: Shared<S>, p: Place) -> bool {
    match p.store {
        Store::Stream => same_in(a.stream@, b.stream@, p.at),
        Store::Normed => same_in(a.normed@, b.normed@, p.at),
        Store::Levels => same_in(a.levels@, b.levels@, p.at),
        Store::Scales => same_in(a.scales@, b.scales@, p.at),
        Store::Queries => same_in(a.queries@, b.queries@, p.at),
        Store::Values => same_in(a.values@, b.values@, p.at),
        Store::KeyCache => same_in(a.key_cache@, b.key_cache@, p.at),
        Store::ValueCache => same_in(a.value_cache@, b.value_cache@, p.at),
        Store::MixedLevels => same_in(a.mixed_levels@, b.mixed_levels@, p.at),
        Store::MixedScales => same_in(a.mixed_scales@, b.mixed_scales@, p.at),
        Store::Hidden => same_in(a.hidden@, b.hidden@, p.at),
        Store::HiddenLevels => same_in(a.hidden_levels@, b.hidden_levels@, p.at),
        Store::HiddenScales => same_in(a.hidden_scales@, b.hidden_scales@, p.at),
        _ => true,
    }
}

/// Two views hold the same at every place that item `it` of a phase reads.
pub open spec fn agree<S: Analytic>(phase: Phase, c: Cfg, it: int, a: Shared<S>, b: Shared<S>) -> bool {
    &&& a.serves(phase, c, it) && b.serves(phase, c, it)
    &&& rewrites(phase) ==> a.own@ == b.own@
    &&& forall|p: Place| gptoss_reads(phase, c, it, p) ==> #[trigger] same_at(a, b, p)
}

proof fn lemma_block_same<S: Analytic>(x: Seq<S>, y: Seq<S>, b: int)
    requires
        forall|i: int| 32 * b <= i < 32 * b + 32 ==> x[i] == y[i],
    ensures
        block_at(x, b) == block_at(y, b),
        scale_of(x, 32 * b, 32) == scale_of(y, 32 * b, 32),
{
    lemma_peak_same(x, y, 32 * b, 32);
    assert(block_at(x, b) =~= block_at(y, b));
}

/// The scores of a head depend on its own queries alone.
proof fn lemma_scores_same<S: Analytic>(
    c: Cfg,
    h: int,
    q: Seq<S>,
    r: Seq<S>,
    kc: Seq<S>,
    base: int,
    start: int,
    n: int,
)
    requires
        c.hd % 16 == 0,
        forall|i: int| h * c.hd <= i < h * c.hd + c.hd ==> q[i] == r[i],
    ensures
        scores_of(c, h, q, kc, base, start, n) == scores_of(c, h, r, kc, base, start, n),
{
    let kvh = shared_head(h, c.nh as int, c.nkv as int);
    let (x, y) = (scores_of(c, h, q, kc, base, start, n), scores_of(c, h, r, kc, base, start, n));
    assert forall|i: int| 0 <= i < x.len() implies x[i] == y[i] by {
        let at = base + cache_place(start + i, kvh, c.nkv as int, c.hd as int);
        lemma_lane_sums_same(kc, at, q, r, h * c.hd, c.hd as int / 16);
    }
    assert(x =~= y);
}

proof fn lemma_lane_sums_same<S: Analytic>(
    k: Seq<S>,
    kat: int,
    q: Seq<S>,
    r: Seq<S>,
    qat: int,
    n: int,
)
    requires
        forall|i: int| qat <= i < qat + 16 * n ==> q[i] == r[i],
    ensures
        lane_sums(k, kat, q, qat, n) == lane_sums(k, kat, r, qat, n),
{
    let (x, y) = (lane_sums(k, kat, q, qat, n), lane_sums(k, kat, r, qat, n));
    assert forall|l: int| 0 <= l < x.len() implies x[l] == y[l] by {
        lemma_lane_same(k, kat, q, r, qat, l, n);
    }
    assert(x =~= y);
}

proof fn lemma_lane_same<S: Analytic>(
    k: Seq<S>,
    kat: int,
    q: Seq<S>,
    r: Seq<S>,
    qat: int,
    l: int,
    n: int,
)
    requires
        0 <= l < 16,
        forall|i: int| qat <= i < qat + 16 * n ==> q[i] == r[i],
    ensures
        lane_sum(k, kat, q, qat, l, n) == lane_sum(k, kat, r, qat, l, n),
    decreases n,
{
    if n > 0 {
        lemma_lane_same(k, kat, q, r, qat, l, n - 1);
    }
}

/// What an item writes depends on nothing but the places that it reads: where two
/// views of the shared buffers agree on them, it writes the same.
pub proof fn items_read_their_places<S: Analytic>(
    m: Model<S>,
    c: Cfg,
    blob: Seq<u8>,
    phase: Phase,
    layer: int,
    t: Turn<S>,
    it: int,
    a: Shared<S>,
    b: Shared<S>,
    out: Seq<Piece<S>>,
)
    requires
        c.is_sound(),
        c.is_gptoss(),
        0 <= it < gptoss_items_of(phase, c),
        agree(phase, c, it, a, b),
    ensures
        m.is_written(c, blob, phase, layer, t, a, it, out) == m.is_written(
            c,
            blob,
            phase,
            layer,
            t,
            b,
            it,
            out,
        ),
{
    match phase {
        Phase::AttnNorm | Phase::FfnNorm | Phase::HeadNorm => {
            assert(a.stream@ =~= b.stream@) by {
                assert forall|i: int| 0 <= i < a.stream@.len() implies a.stream@[i] == b.stream@[i] by {
                    assert(same_at(a, b, Place { store: Store::Stream, at: i }));
                }
            }
        },
        Phase::AttnQuant | Phase::FfnQuant | Phase::HeadQuant => {
            assert forall|i: int| 32 * it <= i < 32 * it + 32 implies a.normed@[i] == b.normed@[i] by {
                assert(same_at(a, b, Place { store: Store::Normed, at: i }));
            }
            lemma_block_same(a.normed@, b.normed@, it);
        },
        Phase::Route => {
            assert(a.normed@ =~= b.normed@) by {
                assert forall|i: int| 0 <= i < a.normed@.len() implies a.normed@[i] == b.normed@[i] by {
                    assert(same_at(a, b, Place { store: Store::Normed, at: i }));
                }
            }
        },
        Phase::Qkv | Phase::GateUp | Phase::Head => {
            assert(a.levels@ =~= b.levels@) by {
                assert forall|i: int| 0 <= i < a.levels@.len() implies a.levels@[i] == b.levels@[i] by {
                    assert(same_at(a, b, Place { store: Store::Levels, at: i }));
                }
            }
            assert(a.scales@ =~= b.scales@) by {
                assert forall|i: int| 0 <= i < a.scales@.len() implies a.scales@[i] == b.scales@[i] by {
                    assert(same_at(a, b, Place { store: Store::Scales, at: i }));
                }
            }
        },
        Phase::Rope => {
            if it >= c.nh {
                let (h, hd) = (it - c.nh, c.hd as int);
                assert(a.values@.subrange(h * hd, h * hd + hd) =~= b.values@.subrange(
                    h * hd,
                    h * hd + hd,
                )) by {
                    lemma_mul_inequality(h + 1, c.nkv as int, hd);
                    lemma_mul_is_distributive_add_other_way(hd, h, 1);
                    assert(0 <= h * hd) by (nonlinear_arith)
                        requires
                            0 <= h,
                            0 <= hd,
                    ;
                    assert forall|i: int| h * hd <= i < h * hd + hd implies a.values@[i]
                        == b.values@[i] by {
                        assert(same_at(a, b, Place { store: Store::Values, at: i }));
                    }
                }
            }
        },
        Phase::Attend => {
            assert(a.key_cache@ =~= b.key_cache@) by {
                assert forall|i: int| 0 <= i < a.key_cache@.len() implies a.key_cache@[i] == b.key_cache@[i] by {
                    assert(same_at(a, b, Place { store: Store::KeyCache, at: i }));
                }
            }
            assert(a.value_cache@ =~= b.value_cache@) by {
                assert forall|i: int| 0 <= i < a.value_cache@.len() implies a.value_cache@[i] == b.value_cache@[i] by {
                    assert(same_at(a, b, Place { store: Store::ValueCache, at: i }));
                }
            }
            assert forall|i: int| it * c.hd <= i < it * c.hd + c.hd implies a.queries@[i]
                == b.queries@[i] by {
                assert(same_at(a, b, Place { store: Store::Queries, at: i }));
            }
            let start = first_seen(layer, t.pos as int, c.swa as int);
            lemma_scores_same(
                c,
                it,
                a.queries@,
                b.queries@,
                a.key_cache@,
                layer * (4096 * c.nkv * c.hd),
                start,
                t.pos - start + 1,
            );
            assert(forall|sink: S|
                taken_head(
                    c,
                    layer,
                    t.pos as int,
                    it,
                    a.queries@,
                    a.key_cache@,
                    a.value_cache@,
                    sink,
                ) =~= taken_head(
                    c,
                    layer,
                    t.pos as int,
                    it,
                    b.queries@,
                    b.key_cache@,
                    b.value_cache@,
                    sink,
                ));
        },
        Phase::Project => {
            assert(a.mixed_levels@ =~= b.mixed_levels@) by {
                assert forall|i: int| 0 <= i < a.mixed_levels@.len() implies a.mixed_levels@[i] == b.mixed_levels@[i] by {
                    assert(same_at(a, b, Place { store: Store::MixedLevels, at: i }));
                }
            }
            assert(a.mixed_scales@ =~= b.mixed_scales@) by {
                assert forall|i: int| 0 <= i < a.mixed_scales@.len() implies a.mixed_scales@[i] == b.mixed_scales@[i] by {
                    assert(same_at(a, b, Place { store: Store::MixedScales, at: i }));
                }
            }
        },
        Phase::Activate => {
            assert(a.hidden@ =~= b.hidden@) by {
                assert forall|i: int| 0 <= i < a.hidden@.len() implies a.hidden@[i] == b.hidden@[i] by {
                    assert(same_at(a, b, Place { store: Store::Hidden, at: i }));
                }
            }
        },
        Phase::Down => {
            assert(a.hidden_levels@ =~= b.hidden_levels@) by {
                assert forall|i: int| 0 <= i < a.hidden_levels@.len() implies a.hidden_levels@[i] == b.hidden_levels@[i] by {
                    assert(same_at(a, b, Place { store: Store::HiddenLevels, at: i }));
                }
            }
            assert(a.hidden_scales@ =~= b.hidden_scales@) by {
                assert forall|i: int| 0 <= i < a.hidden_scales@.len() implies a.hidden_scales@[i] == b.hidden_scales@[i] by {
                    assert(same_at(a, b, Place { store: Store::HiddenScales, at: i }));
                }
            }
        },
        _ => {},
    }
}

/// An item that runs at the same time, that is with no barrier between, does not
/// disturb: whether item `j` of step `l` sees what item `i` of step `k` has written
/// or what stood there before, it writes the same.
pub proof fn items_do_not_disturb<S: Analytic>(
    m: Model<S>,
    c: Cfg,
    blob: Seq<u8>,
    want: bool,
    t: Turn<S>,
    k: int,
    l: int,
    i: int,
    j: int,
    a: Shared<S>,
    b: Shared<S>,
    out: Seq<Piece<S>>,
)
    requires
        c.is_sound(),
        c.is_gptoss(),
        0 <= k,
        0 <= l,
        unparted(k, l, gptoss_layer(), gptoss_head(want), c.nl as int, |f: Phase| gptoss_syncs(f))
            || unparted(
            l,
            k,
            gptoss_layer(),
            gptoss_head(want),
            c.nl as int,
            |f: Phase| gptoss_syncs(f),
        ),
        (k, i) != (l, j),
        step_of(k, gptoss_layer(), gptoss_head(want), c.nl as int) matches Some((f, layer)) && 0
            <= i < gptoss_items_of(f, c) && (forall|p: Place|
            !gptoss_writes(f, c, layer, t.pos as int, i, p) ==> #[trigger] same_at(a, b, p)),
        step_of(l, gptoss_layer(), gptoss_head(want), c.nl as int) matches Some((g, _)) && 0 <= j
            < gptoss_items_of(g, c) && a.serves(g, c, j) && b.serves(g, c, j) && a.own@ == b.own@,
    ensures
        step_of(l, gptoss_layer(), gptoss_head(want), c.nl as int) matches Some((g, layer))
            && m.is_written(c, blob, g, layer, t, a, j, out) == m.is_written(
            c,
            blob,
            g,
            layer,
            t,
            b,
            j,
            out,
        ),
{
    let (f, la) = step_of(k, gptoss_layer(), gptoss_head(want), c.nl as int)->0;
    let (g, lb) = step_of(l, gptoss_layer(), gptoss_head(want), c.nl as int)->0;
    assert forall|p: Place| gptoss_reads(g, c, j, p) implies #[trigger] same_at(a, b, p) by {
        if gptoss_writes(f, c, la, t.pos as int, i, p) {
            gptoss_items_never_meet(c, c.nl as int, want, t.pos as int, k, l, i, j, p);
        }
    }
    items_read_their_places(m, c, blob, g, lb, t, j, a, b, out);
}

/// What an item writes fills its runs: there is a piece for each of them, with as
/// many places.
pub proof fn pieces_fill_their_runs<S: Analytic>(
    m: Model<S>,
    c: Cfg,
    blob: Seq<u8>,
    phase: Phase,
    layer: int,
    t: Turn<S>,
    it: int,
    b: Shared<S>,
    out: Seq<Piece<S>>,
    i: int,
)
    requires
        c.is_sound(),
        c.is_gptoss(),
        0 <= it < gptoss_items_of(phase, c),
        b.serves(phase, c, it),
        m.is_written(c, blob, phase, layer, t, b, it, out),
    ensures
        out.len() == gptoss_spans(phase, c, layer, t.pos as int, it).len(),
        0 <= i < out.len() ==> out[i].places() == gptoss_spans(
            phase,
            c,
            layer,
            t.pos as int,
            it,
        )[i].len,
{
    if phase == Phase::Rope && it >= c.nh {
        let (h, hd) = (it - c.nh, c.hd as int);
        lemma_mul_inequality(h + 1, c.nkv as int, hd);
        lemma_mul_is_distributive_add_other_way(hd, h, 1);
        assert(0 <= h * hd) by (nonlinear_arith)
            requires
                0 <= h,
                0 <= hd,
        ;
    }
}

} // verus!
