//! What each unit of work of a forward pass of the model with normalized heads
//! writes, from what the shared buffers hold.
use crate::access::{
    qwen_reads, qwen_spans, qwen_units_never_meet, qwen_units_of, qwen_writes, unparted, Place,
    Store,
};
use crate::activation::{plain_gate, silu};
use crate::analytic::Analytic;
use crate::arith::sum;
use crate::attend::{attend, plain_scores_of, taken};
use crate::attention::{cache_place, layers_are_cached, shared_head, MAXSEQ};
use crate::config::Cfg;
use crate::dense::{normed, products, sum_squares, turned};
use crate::even::NT;
use crate::kmat::{rows_are_held, Grain, KMat, TYPE_Q4_K};
use crate::norm::{inverse_of, inverse_rms};
use crate::order::{rewrites, same_in};
use crate::piece::{one_real, only_reals, Piece};
use crate::q4k::{dequant_q4k, q4k_plain};
use crate::q8::{block_sums, block_term};
use crate::quantize::{lemma_peak_same, level_of, quant_run, scale_of};
use crate::qwen::{head_norm_rope, head_normed, is_matrix, Layer};
use crate::routing::{expert_row_of, experts_below, head_item, projected, HeadItem};
use crate::schedule::{
    of_a_layer, of_layer, qwen_head, qwen_items_of, qwen_layer, qwen_syncs, step_of, Phase,
};
use crate::softmax::{total, total_of};
use vstd::arithmetic::div_mod::{lemma_div_multiples_vanish, lemma_fundamental_div_mod};
use vstd::arithmetic::mul::{lemma_mul_inequality, lemma_mul_is_distributive_add_other_way};
use vstd::prelude::*;
use vstd::slice::{slice_subrange, slice_to_vec};

verus! {

/// The weights of a model, of which the matrices stay in the weight file, and the
/// cosines and sines of all positions.
pub struct Model<S> {
    pub layers: Vec<Layer<S>>,
    pub out_norm: Vec<S>,
    pub head: KMat,
    pub embed: KMat,
    pub eps: S,
    pub turns: Vec<S>,
    pub grain: Grain,
}

/// What a unit reads of the shared buffers. `own` holds the numbers that the unit
/// rewrites: those of the stream, or those of a head.
pub struct Shared<'a, S> {
    pub own: &'a [S],
    pub stream: &'a [S],
    pub squares: &'a [S],
    pub normed: &'a [S],
    pub levels: &'a [i8],
    pub scales: &'a [S],
    pub sums: &'a [i32],
    pub queries: &'a [S],
    pub values: &'a [S],
    pub key_cache: &'a [S],
    pub value_cache: &'a [S],
    pub mixed: &'a [S],
    pub mixed_levels: &'a [i8],
    pub mixed_scales: &'a [S],
    pub mixed_sums: &'a [i32],
    pub hidden: &'a [S],
    pub hidden_levels: &'a [i8],
    pub hidden_scales: &'a [S],
    pub hidden_sums: &'a [i32],
}

/// The token that a pass is for, its position, what its router has chosen, and the
/// run of items of the worker.
pub struct Turn<'a, S> {
    pub tok: u32,
    pub pos: usize,
    pub top: &'a [usize],
    pub weights: &'a [S],
    pub run: (usize, usize),
}

impl<'a, S: Analytic> Turn<'a, S> {
    /// The token is one of the vocabulary, its position fits the caches, and the
    /// run is one of the phase.
    pub open spec fn fits(&self, phase: Phase, c: Cfg, grain: Grain) -> bool {
        &&& self.tok < c.nvocab && self.pos < MAXSEQ
        &&& self.run.0 <= self.run.1 <= qwen_items_of(phase, c, grain)
    }

    /// The router has chosen.
    pub open spec fn has_chosen(&self, c: Cfg) -> bool {
        &&& self.top@.len() == c.topk && self.weights@.len() == c.topk
        &&& experts_below(self.top@, c.ne as int)
    }
}

impl<'a, S: Analytic> Shared<'a, S> {
    /// The buffers that unit `it` of a phase reads have their sizes.
    pub open spec fn serves(&self, phase: Phase, c: Cfg, grain: Grain, it: int) -> bool {
        match phase {
            Phase::AttnSquares | Phase::FfnSquares | Phase::HeadSquares => {
                self.stream@.len() == c.d
            },
            Phase::AttnNorm | Phase::FfnNorm | Phase::HeadNorm => {
                self.stream@.len() == c.d && self.squares@.len() == NT
            },
            Phase::AttnQuant | Phase::FfnQuant | Phase::HeadQuant | Phase::Route => {
                self.normed@.len() == c.d
            },
            Phase::Qkv | Phase::GateUp | Phase::Head => {
                &&& self.levels@.len() == c.d
                &&& self.scales@.len() == c.d as int / grain.width()
                &&& self.sums@.len() == c.d / 32
            },
            Phase::Rope => {
                self.own@.len() == c.hd && (it >= c.nh ==> self.values@.len() == c.nkv * c.hd)
            },
            Phase::Attend => {
                &&& self.queries@.len() == c.nh * c.hd
                &&& self.key_cache@.len() == c.nl * (4096 * c.nkv * c.hd)
                &&& self.value_cache@.len() == c.nl * (4096 * c.nkv * c.hd)
            },
            Phase::AttendQuant => self.mixed@.len() == c.nh * c.hd,
            Phase::Project => {
                &&& self.own@.len() == 1
                &&& self.mixed_levels@.len() == c.nh * c.hd
                &&& self.mixed_scales@.len() == (c.nh * c.hd) / grain.width()
                &&& self.mixed_sums@.len() == (c.nh * c.hd) / 32
            },
            Phase::HiddenQuant => self.hidden@.len() == c.topk * c.ffexp,
            Phase::Down => {
                &&& self.own@.len() == 1
                &&& self.hidden_levels@.len() == c.topk * c.ffexp
                &&& self.hidden_scales@.len() == (c.topk * c.ffexp) / grain.width()
                &&& self.hidden_sums@.len() == (c.topk * c.ffexp) / 32
            },
            _ => true,
        }
    }
}

/// The levels of the `w` numbers from place `at` on.
pub open spec fn run_levels<S: Analytic>(x: Seq<S>, at: int, w: int) -> Seq<i8> {
    Seq::new(w as nat, |k: int| level_of(x[at + k], scale_of(x, at, w)))
}

/// The sums of levels by 32.
pub open spec fn sums_of(q: Seq<i8>) -> Seq<i32> {
    Seq::new(q.len() / 32, |b: int| sum(32, block_term(q, b)) as i32)
}

/// The pieces of a run of levels: the levels of the `w` numbers from place `at` on,
/// their scale, and their sums by 32.
pub open spec fn is_run<S: Analytic>(x: Seq<S>, at: int, w: int, out: Seq<Piece<S>>) -> bool {
    &&& out.len() == 3
    &&& out[0].holds_levels(run_levels(x, at, w))
    &&& out[1].holds_reals(seq![scale_of(x, at, w)])
    &&& out[2].holds_sums(sums_of(run_levels(x, at, w)))
}

/// A normalized head, turned by the cosines and sines from place `tat` on.
pub open spec fn turned_head<S: Analytic>(v: Seq<S>, w: Seq<S>, eps: S, table: Seq<S>, tat: int) -> Seq<
    S,
> {
    let half = v.len() as int / 2;
    Seq::new(v.len(), |j: int| turned(head_normed(v, 0, half, w, eps), 0, half, table, tat, j))
}

/// What query head `h` takes from a layer's part of the caches.
pub open spec fn taken_head<S: Analytic>(
    c: Cfg,
    layer: int,
    pos: int,
    h: int,
    q: Seq<S>,
    kc: Seq<S>,
    vc: Seq<S>,
) -> Seq<S> {
    let base = layer * (4096 * c.nkv * c.hd);
    Seq::new(c.hd as nat, |j: int| taken(c, h, q, kc, vc, base, pos + 1, j))
}

/// Super-block `sb` of a token's row of the embedding.
pub open spec fn embedded<S: Analytic>(m: KMat, blob: Seq<u8>, tok: int, sb: int) -> Seq<S> {
    let at = m.off + tok * m.bpr + 144 * sb;
    Seq::new(256, |l: int| q4k_plain::<S>(blob.subrange(at, at + 144), l))
}

impl<S: Analytic> Model<S> {
    /// The weights have the sizes of the configuration, and the matrices lie in a
    /// weight file of `len` bytes.
    pub open spec fn fits(&self, c: Cfg, len: int) -> bool {
        &&& c.is_sound() && c.is_qwen()
        &&& self.layers@.len() == c.nl
        &&& forall|i: int| 0 <= i < c.nl ==> (#[trigger] self.layers@[i]).fits(c, len)
        &&& self.out_norm@.len() >= c.d
        &&& is_matrix(self.head, len, c.nvocab as int, c.d as int)
        &&& is_matrix(self.embed, len, c.nvocab as int, c.d as int)
        &&& self.embed.ttype == TYPE_Q4_K
        &&& self.turns@.len() >= 4096 * c.hd
    }

    /// Whether the weights have the sizes of the configuration, and the matrices lie
    /// in a weight file of `len` bytes.
    pub fn fit(&self, c: &Cfg, len: usize) -> (r: bool)
        ensures
            r == self.fits(*c, len as int),
    {
        if !c.sound() || !c.serves_qwen() || self.layers.len() != c.nl {
            return false;
        }
        for i in 0..c.nl
            invariant
                c.is_sound(),
                self.layers@.len() == c.nl,
                forall|k: int| 0 <= k < i ==> (#[trigger] self.layers@[k]).fits(*c, len as int),
        {
            if !self.layers[i].fit(c, len) {
                return false;
            }
        }
        self.out_norm.len() >= c.d && self.head.fits(len, c.nvocab, c.d) && self.embed.fits(
            len,
            c.nvocab,
            c.d,
        ) && self.embed.ttype == TYPE_Q4_K && self.turns.len() as u128 >= 4096 * c.hd as u128
    }

    /// The weights of the norm of a phase.
    pub open spec fn norm_weights(&self, phase: Phase, layer: int) -> Seq<S> {
        match phase {
            Phase::AttnNorm => self.layers@[layer].attn_norm@,
            Phase::FfnNorm => self.layers@[layer].ffn_norm@,
            _ => self.out_norm@,
        }
    }

    /// What unit `it` of a phase writes: `out` holds the contents of its runs.
    pub open spec fn is_written(
        &self,
        c: Cfg,
        blob: Seq<u8>,
        phase: Phase,
        layer: int,
        t: Turn<S>,
        b: Shared<S>,
        it: int,
        out: Seq<Piece<S>>,
    ) -> bool {
        let (l, g, w) = (self.layers@[layer], self.grain, self.grain.width());
        match phase {
            Phase::Embed => only_reals(out, embedded(self.embed, blob, t.tok as int, it)),
            Phase::AttnSquares | Phase::FfnSquares | Phase::HeadSquares => {
                let (from, n) = (t.run.0 as int, t.run.1 - t.run.0);
                only_reals(
                    out,
                    seq![products(S::zero_spec(), b.stream@, from, b.stream@, from, n)],
                )
            },
            Phase::AttnNorm | Phase::FfnNorm | Phase::HeadNorm => {
                let squares = total_of(S::zero_spec(), b.squares@, NT as int);
                let inv = inverse_of(squares, c.d, self.eps);
                only_reals(
                    out,
                    seq![normed(b.stream@[it], inv, self.norm_weights(phase, layer)[it])],
                )
            },
            Phase::AttnQuant | Phase::FfnQuant | Phase::HeadQuant => {
                is_run(b.normed@, w * it, w, out)
            },
            Phase::Qkv => {
                let (p, row) = projected(it, c.nh as int, c.nkv as int, c.hd as int);
                only_reals(
                    out,
                    seq![l.qkv_value(blob, p, row, b.levels@, b.scales@, b.sums@, g)],
                )
            },
            Phase::Rope => {
                let (h, hd) = (it - c.nh, c.hd as int);
                let tat = t.pos * c.hd;
                if it < c.nh {
                    only_reals(out, turned_head(b.own@, l.q_norm@, self.eps, self.turns@, tat))
                } else {
                    let head = turned_head(b.own@, l.k_norm@, self.eps, self.turns@, tat);
                    &&& out.len() == 3
                    &&& out[0].holds_reals(head)
                    &&& out[1].holds_reals(head)
                    &&& out[2].holds_reals(b.values@.subrange(h * hd, h * hd + hd))
                }
            },
            Phase::Attend => {
                let (kc, vc) = (b.key_cache@, b.value_cache@);
                only_reals(out, taken_head(c, layer, t.pos as int, it, b.queries@, kc, vc))
            },
            Phase::AttendQuant => is_run(b.mixed@, w * it, w, out),
            Phase::Project => {
                let (q, s, m) = (b.mixed_levels@, b.mixed_scales@, b.mixed_sums@);
                only_reals(
                    out,
                    seq![b.own@[0].plus_spec(l.wo.row_value(blob, it, q, s, m, g))],
                )
            },
            Phase::Route => {
                let (x, d) = (b.normed@, c.d as int);
                only_reals(out, seq![products(S::zero_spec(), l.gate_inp@, it * d, x, 0, d)])
            },
            Phase::GateUp => {
                let row = expert_row_of(it, t.top@, c.ffexp as int).1;
                let (q, s, m) = (b.levels@, b.scales@, b.sums@);
                let (x, y) = l.gate_up_value(c, blob, row, q, s, m, g);
                only_reals(out, seq![plain_gate(x, y)])
            },
            Phase::HiddenQuant => is_run(b.hidden@, w * it, w, out),
            Phase::Down => {
                let (h, hs, hm) = (b.hidden_levels@, b.hidden_scales@, b.hidden_sums@);
                only_reals(
                    out,
                    seq![
                        l.stream_value(
                            c,
                            blob,
                            it,
                            b.own@[0],
                            t.top@,
                            t.weights@,
                            h,
                            hs,
                            hm,
                            g,
                            c.topk as int,
                        ),
                    ],
                )
            },
            _ => out.len() == 0,
        }
    }

    /// What the norms of a phase multiply with, from the workers' sums of squares.
    pub fn inverse(&self, squares: &[S], d: usize) -> (r: S)
        ensures
            r == inverse_of(total_of(S::zero_spec(), squares@, squares.len() as int), d, self.eps),
    {
        inverse_rms(total(S::zero(), squares), d, self.eps)
    }
}

// -------------------------------------------------------------------- the units

/// The pieces of a run of levels: the levels of the `w` numbers from place `at` on,
/// their scale, and their sums by 32.
fn run_pieces<S: Analytic>(x: &[S], at: usize, w: usize) -> (r: Vec<Piece<S>>)
    requires
        at + w <= x.len(),
    ensures
        is_run(x@, at as int, w as int, r@),
{
    let (levels, scale) = quant_run(x, at, w);
    assert(levels@ =~= run_levels(x@, at as int, w as int));
    let sums: Vec<i32> = block_sums(levels.as_slice());
    assert(sums@ =~= sums_of(levels@));
    let s: Vec<S> = vec![scale];
    assert(s@ =~= seq![scale]);
    vec![Piece::Levels(levels), Piece::Reals(s), Piece::Sums(sums)]
}

/// Run `it` of the numbers of a buffer that share a scale.
fn grain_pieces<S: Analytic>(x: &[S], grain: Grain, it: usize) -> (r: Vec<Piece<S>>)
    requires
        it < x.len() as int / grain.width(),
    ensures
        is_run(x@, grain.width() * it, grain.width(), r@),
{
    match grain {
        Grain::Block | Grain::Split => run_pieces(x, 32 * it, 32),
        Grain::Super => run_pieces(x, 256 * it, 256),
    }
}

/// The turned head, and for a key head the new entries of the caches.
fn rope_unit<S: Analytic>(
    c: &Cfg,
    l: &Layer<S>,
    eps: S,
    turns: &[S],
    pos: usize,
    own: &[S],
    values: &[S],
    it: usize,
) -> (r: Vec<Piece<S>>)
    requires
        c.is_sound(),
        l.q_norm@.len() >= c.hd,
        l.k_norm@.len() >= c.hd,
        pos < MAXSEQ,
        turns.len() >= 4096 * c.hd,
        it < c.nh + c.nkv,
        own.len() == c.hd,
        it >= c.nh ==> values.len() == c.nkv * c.hd,
    ensures
        ({
            let (h, hd) = (it - c.nh, c.hd as int);
            let tat = pos * c.hd;
            if it < c.nh {
                only_reals(r@, turned_head(own@, l.q_norm@, eps, turns@, tat))
            } else {
                let head = turned_head(own@, l.k_norm@, eps, turns@, tat);
                &&& r@.len() == 3
                &&& r@[0].holds_reals(head)
                &&& r@[1].holds_reals(head)
                &&& r@[2].holds_reals(values@.subrange(h * hd, h * hd + hd))
            }
        }),
{
    proof {
        lemma_mul_inequality(pos + 1, 4096, c.hd as int);
        lemma_mul_is_distributive_add_other_way(c.hd as int, pos as int, 1);
        assert(0 <= pos * c.hd) by (nonlinear_arith)
            requires
                0 <= pos,
                0 <= c.hd,
        ;
        assert(turns@.len() == turns.len() && own@.len() == own.len());
    }
    let mut head: Vec<S> = slice_to_vec(own);
    let (half, tat): (usize, usize) = (c.hd / 2, pos * c.hd);
    match head_item(it, c.nh, c.nkv) {
        HeadItem::Query(_) => {
            head_norm_rope(head.as_mut_slice(), 0, half, l.q_norm.as_slice(), eps, turns, tat);
            assert(head@ =~= turned_head(own@, l.q_norm@, eps, turns@, pos * c.hd));
            vec![Piece::Reals(head)]
        },
        HeadItem::KeyValue(h) => {
            proof {
                lemma_mul_inequality(h + 1, c.nkv as int, c.hd as int);
                lemma_mul_is_distributive_add_other_way(c.hd as int, h as int, 1);
                assert(0 <= h * c.hd) by (nonlinear_arith)
                    requires
                        0 <= h,
                        0 <= c.hd,
                ;
                assert(values@.len() == values.len());
            }
            head_norm_rope(head.as_mut_slice(), 0, half, l.k_norm.as_slice(), eps, turns, tat);
            assert(head@ =~= turned_head(own@, l.k_norm@, eps, turns@, pos * c.hd));
            let keys: Vec<S> = slice_to_vec(head.as_slice());
            let v: Vec<S> = slice_to_vec(slice_subrange(values, h * c.hd, h * c.hd + c.hd));
            vec![Piece::Reals(head), Piece::Reals(keys), Piece::Reals(v)]
        },
    }
}

/// What query head `it` takes from the caches.
fn attend_unit<S: Analytic>(
    c: &Cfg,
    layer: usize,
    pos: usize,
    queries: &[S],
    kc: &[S],
    vc: &[S],
    it: usize,
) -> (r: Vec<Piece<S>>)
    requires
        c.is_sound(),
        layer < c.nl,
        pos < MAXSEQ,
        it < c.nh,
        queries.len() == c.nh * c.hd,
        kc.len() == c.nl * (4096 * c.nkv * c.hd),
        vc.len() == c.nl * (4096 * c.nkv * c.hd),
    ensures
        only_reals(
            r@,
            taken_head(*c, layer as int, pos as int, it as int, queries@, kc@, vc@),
        ),
{
    proof {
        layers_are_cached(c.nl as int, layer as int, pos as int, c.nkv as int, c.hd as int);
        lemma_mul_inequality(it + 1, c.nh as int, c.hd as int);
        let per = 4096 * c.nkv * c.hd;
        assert(0 <= 4096 * c.nkv <= per <= c.nl * per) by (nonlinear_arith)
            requires
                per == 4096 * c.nkv * c.hd,
                c.hd > 0,
                c.nl > 0,
        ;
    }
    let base: usize = layer * (4096 * c.nkv * c.hd);
    let head: Vec<S> = attend(c, it, queries, kc, vc, base, pos);
    assert(head@ =~= taken_head(*c, layer as int, pos as int, it as int, queries@, kc@, vc@));
    vec![Piece::Reals(head)]
}

/// The scales of the hidden layers of all slots are those of each slot together.
proof fn lemma_slots(topk: int, ff: int, w: int)
    requires
        0 <= topk,
        0 <= ff,
        0 < w,
        ff % w == 0,
    ensures
        (topk * ff) / w == topk * (ff / w),
{
    lemma_fundamental_div_mod(ff, w);
    let k = ff / w;
    assert(topk * ff == w * (topk * k)) by (nonlinear_arith)
        requires
            ff == w * k,
    ;
    lemma_div_multiples_vanish(topk * k, w);
}

impl<S: Analytic> Model<S> {
    /// Super-block `it` of the token's row of the embedding.
    fn embed_unit(&self, c: &Cfg, blob: &[u8], tok: u32, it: usize) -> (r: Vec<Piece<S>>)
        requires
            self.fits(*c, blob@.len() as int),
            tok < c.nvocab,
            it < c.d / 256,
        ensures
            only_reals(r@, embedded(self.embed, blob@, tok as int, it as int)),
    {
        proof {
            rows_are_held(self.embed, blob@, c.nvocab as int, tok as int);
            assert(blob@.len() == blob.len());
        }
        let at: usize = self.embed.row_start(blob, tok as usize) + 144 * it;
        let block = slice_subrange(blob, at, at + 144);
        let row: Vec<S> = dequant_q4k(block);
        assert(row@ =~= embedded(self.embed, blob@, tok as int, it as int));
        vec![Piece::Reals(row)]
    }

    /// What unit `it` of a phase that needs the weights of a layer writes.
    fn layer_unit(
        &self,
        c: &Cfg,
        blob: &[u8],
        phase: Phase,
        layer: usize,
        t: &Turn<S>,
        b: &Shared<S>,
        inv: S,
        it: usize,
    ) -> (r: Vec<Piece<S>>)
        requires
            self.fits(*c, blob@.len() as int),
            layer < c.nl,
            of_layer(phase),
            t.fits(phase, *c, self.grain),
            phase == Phase::GateUp || phase == Phase::Down ==> t.has_chosen(*c),
            b.serves(phase, *c, self.grain, it as int),
            phase == Phase::AttnNorm || phase == Phase::FfnNorm ==> inv == inverse_of(
                total_of(S::zero_spec(), b.squares@, NT as int),
                c.d,
                self.eps,
            ),
            it < qwen_units_of(phase, *c, self.grain),
        ensures
            self.is_written(*c, blob@, phase, layer as int, *t, *b, it as int, r@),
    {
        assert(self.layers@[layer as int].fits(*c, blob@.len() as int));
        let l: &Layer<S> = &self.layers[layer];
        let g: Grain = self.grain;
        match phase {
            Phase::AttnNorm => one_real(b.stream[it].times(inv).times(l.attn_norm[it])),
            Phase::FfnNorm => one_real(b.stream[it].times(inv).times(l.ffn_norm[it])),
            Phase::Qkv => {
                let (_, _, v) = l.qkv(c, blob, it, b.levels, b.scales, b.sums, g);
                one_real(v)
            },
            Phase::Rope => {
                rope_unit(c, l, self.eps, self.turns.as_slice(), t.pos, b.own, b.values, it)
            },
            Phase::Attend => {
                attend_unit(c, layer, t.pos, b.queries, b.key_cache, b.value_cache, it)
            },
            Phase::Project => {
                let (q, s, m) = (b.mixed_levels, b.mixed_scales, b.mixed_sums);
                one_real(l.project(c, blob, it, b.own[0], q, s, m, g))
            },
            Phase::Route => one_real(l.route(c, it, b.normed)),
            Phase::GateUp => {
                let (x, y) = l.gate_up(c, blob, it, t.top, b.levels, b.scales, b.sums, g);
                one_real(silu(x, y))
            },
            _ => {
                proof {
                    lemma_slots(c.topk as int, c.ffexp as int, 32);
                    lemma_slots(c.topk as int, c.ffexp as int, 256);
                }
                let (h, hs, hm) = (b.hidden_levels, b.hidden_scales, b.hidden_sums);
                one_real(l.down(c, blob, it, b.own[0], t.top, t.weights, h, hs, hm, g))
            },
        }
    }

    /// What unit `it` of a phase writes. `inv` is what the norms of the phase
    /// multiply with. In the phases of the squares a unit is a worker, and its run
    /// is what it sums.
    pub fn unit(
        &self,
        c: &Cfg,
        blob: &[u8],
        phase: Phase,
        layer: usize,
        t: &Turn<S>,
        b: &Shared<S>,
        inv: S,
        it: usize,
    ) -> (r: Vec<Piece<S>>)
        requires
            self.fits(*c, blob@.len() as int),
            of_layer(phase) ==> layer < c.nl,
            t.fits(phase, *c, self.grain),
            phase == Phase::GateUp || phase == Phase::Down ==> t.has_chosen(*c),
            b.serves(phase, *c, self.grain, it as int),
            phase == Phase::AttnNorm || phase == Phase::FfnNorm || phase == Phase::HeadNorm ==> inv
                == inverse_of(total_of(S::zero_spec(), b.squares@, NT as int), c.d, self.eps),
            it < qwen_units_of(phase, *c, self.grain),
        ensures
            self.is_written(*c, blob@, phase, layer as int, *t, *b, it as int, r@),
    {
        match phase {
            Phase::Embed => self.embed_unit(c, blob, t.tok, it),
            Phase::AttnSquares | Phase::FfnSquares | Phase::HeadSquares => {
                one_real(sum_squares(b.stream, t.run.0, t.run.1))
            },
            Phase::HeadNorm => one_real(b.stream[it].times(inv).times(self.out_norm[it])),
            Phase::AttnQuant | Phase::FfnQuant | Phase::HeadQuant => {
                grain_pieces(b.normed, self.grain, it)
            },
            Phase::AttendQuant => grain_pieces(b.mixed, self.grain, it),
            Phase::HiddenQuant => grain_pieces(b.hidden, self.grain, it),
            _ => if of_a_layer(phase) {
                self.layer_unit(c, blob, phase, layer, t, b, inv, it)
            } else {
                Vec::new()
            },
        }
    }

    /// The logits of a worker's run of tokens.
    pub fn scores(&self, c: &Cfg, blob: &[u8], b: &Shared<S>, run: (usize, usize)) -> (r: Vec<S>)
        requires
            self.fits(*c, blob@.len() as int),
            b.serves(Phase::Head, *c, self.grain, 0),
            run.0 <= run.1 <= c.nvocab,
        ensures
            r@.len() == run.1 - run.0,
            forall|i: int|
                0 <= i < r@.len() ==> #[trigger] r@[i] == self.head.row_value(
                    blob@,
                    run.0 + i,
                    b.levels@,
                    b.scales@,
                    b.sums@,
                    self.grain,
                ),
    {
        let mut out: Vec<S> = Vec::new();
        for tok in run.0..run.1
            invariant
                self.fits(*c, blob@.len() as int),
                b.serves(Phase::Head, *c, self.grain, 0),
                run.0 <= run.1 <= c.nvocab,
                out@.len() == tok - run.0,
                forall|i: int|
                    0 <= i < out@.len() ==> #[trigger] out@[i] == self.head.row_value(
                        blob@,
                        run.0 + i,
                        b.levels@,
                        b.scales@,
                        b.sums@,
                        self.grain,
                    ),
        {
            proof {
                rows_are_held(self.head, blob@, c.nvocab as int, tok as int);
            }
            out.push(self.head.dot(blob, tok, b.levels, b.scales, b.sums, self.grain));
        }
        out
    }
}

// ------------------------------------------------------------- what is not read

/// Two views of the shared buffers hold the same at a place.
pub open spec fn same_at<S: Analytic>(a: Shared<S>, b: Shared<S>, p: Place) -> bool {
    match p.store {
        Store::Stream => same_in(a.stream@, b.stream@, p.at),
        Store::Squares => same_in(a.squares@, b.squares@, p.at),
        Store::Normed => same_in(a.normed@, b.normed@, p.at),
        Store::Levels => same_in(a.levels@, b.levels@, p.at),
        Store::Scales => same_in(a.scales@, b.scales@, p.at),
        Store::Sums => same_in(a.sums@, b.sums@, p.at),
        Store::Queries => same_in(a.queries@, b.queries@, p.at),
        Store::Values => same_in(a.values@, b.values@, p.at),
        Store::KeyCache => same_in(a.key_cache@, b.key_cache@, p.at),
        Store::ValueCache => same_in(a.value_cache@, b.value_cache@, p.at),
        Store::Mixed => same_in(a.mixed@, b.mixed@, p.at),
        Store::MixedLevels => same_in(a.mixed_levels@, b.mixed_levels@, p.at),
        Store::MixedScales => same_in(a.mixed_scales@, b.mixed_scales@, p.at),
        Store::MixedSums => same_in(a.mixed_sums@, b.mixed_sums@, p.at),
        Store::Hidden => same_in(a.hidden@, b.hidden@, p.at),
        Store::HiddenLevels => same_in(a.hidden_levels@, b.hidden_levels@, p.at),
        Store::HiddenScales => same_in(a.hidden_scales@, b.hidden_scales@, p.at),
        Store::HiddenSums => same_in(a.hidden_sums@, b.hidden_sums@, p.at),
        _ => true,
    }
}

/// Two views hold the same at every place that unit `it` of a phase reads.
pub open spec fn agree<S: Analytic>(
    phase: Phase,
    c: Cfg,
    grain: Grain,
    it: int,
    a: Shared<S>,
    b: Shared<S>,
) -> bool {
    &&& a.serves(phase, c, grain, it) && b.serves(phase, c, grain, it)
    &&& rewrites(phase) ==> a.own@ == b.own@
    &&& forall|p: Place| qwen_reads(phase, c, grain, it, p) ==> #[trigger] same_at(a, b, p)
}

proof fn lemma_run_same<S: Analytic>(x: Seq<S>, y: Seq<S>, at: int, w: int, out: Seq<Piece<S>>)
    requires
        0 <= w,
        forall|i: int| at <= i < at + w ==> x[i] == y[i],
    ensures
        is_run(x, at, w, out) == is_run(y, at, w, out),
{
    lemma_peak_same(x, y, at, w);
    assert(run_levels(x, at, w) =~= run_levels(y, at, w));
}

/// The scores of a head depend on its own queries alone.
proof fn lemma_scores_same<S: Analytic>(
    c: Cfg,
    h: int,
    q: Seq<S>,
    r: Seq<S>,
    kc: Seq<S>,
    base: int,
    n: int,
)
    requires
        forall|i: int| h * c.hd <= i < h * c.hd + c.hd ==> q[i] == r[i],
    ensures
        plain_scores_of(c, h, q, kc, base, n) == plain_scores_of(c, h, r, kc, base, n),
{
    let kvh = shared_head(h, c.nh as int, c.nkv as int);
    let (x, y) = (plain_scores_of(c, h, q, kc, base, n), plain_scores_of(c, h, r, kc, base, n));
    assert forall|i: int| 0 <= i < x.len() implies x[i] == y[i] by {
        let at = base + cache_place(i, kvh, c.nkv as int, c.hd as int);
        lemma_products_same(S::zero_spec(), kc, at, q, r, h * c.hd, c.hd as int);
    }
    assert(x =~= y);
}

proof fn lemma_products_same<S: Analytic>(
    first: S,
    k: Seq<S>,
    kat: int,
    q: Seq<S>,
    r: Seq<S>,
    qat: int,
    n: int,
)
    requires
        forall|i: int| qat <= i < qat + n ==> q[i] == r[i],
    ensures
        products(first, k, kat, q, qat, n) == products(first, k, kat, r, qat, n),
    decreases n,
{
    if n > 0 {
        lemma_products_same(first, k, kat, q, r, qat, n - 1);
    }
}

/// What a unit writes depends on nothing but the places that it reads: where two
/// views of the shared buffers agree on them, it writes the same.
pub proof fn units_read_their_places<S: Analytic>(
    m: Model<S>,
    c: Cfg,
    blob: Seq<u8>,
    phase: Phase,
    layer: int,
    t: Turn<S>,
    it: int,
    a: Shared<S>,
    b: Shared<S>,
    out: Seq<Piece<S>>,
)
    requires
        c.is_sound(),
        0 <= it < qwen_units_of(phase, c, m.grain),
        agree(phase, c, m.grain, it, a, b),
    ensures
        m.is_written(c, blob, phase, layer, t, a, it, out) == m.is_written(
            c,
            blob,
            phase,
            layer,
            t,
            b,
            it,
            out,
        ),
{
    match phase {
        Phase::AttnSquares | Phase::FfnSquares | Phase::HeadSquares => {
            assert(a.stream@ =~= b.stream@) by {
                assert forall|i: int| 0 <= i < a.stream@.len() implies a.stream@[i] == b.stream@[i] by {
                    assert(same_at(a, b, Place { store: Store::Stream, at: i }));
                }
            }
        },
        Phase::AttnNorm | Phase::FfnNorm | Phase::HeadNorm => {
            assert(a.stream@ =~= b.stream@) by {
                assert forall|i: int| 0 <= i < a.stream@.len() implies a.stream@[i] == b.stream@[i] by {
                    assert(same_at(a, b, Place { store: Store::Stream, at: i }));
                }
            }
            assert(a.squares@ =~= b.squares@) by {
                assert forall|i: int| 0 <= i < a.squares@.len() implies a.squares@[i] == b.squares@[i] by {
                    assert(same_at(a, b, Place { store: Store::Squares, at: i }));
                }
            }
        },
        Phase::AttnQuant | Phase::FfnQuant | Phase::HeadQuant => {
            let w = m.grain.width();
            assert forall|i: int| w * it <= i < w * it + w implies a.normed@[i] == b.normed@[i] by {
                assert(same_at(a, b, Place { store: Store::Normed, at: i }));
            }
            lemma_run_same(a.normed@, b.normed@, w * it, w, out);
        },
        Phase::AttendQuant => {
            let w = m.grain.width();
            assert forall|i: int| w * it <= i < w * it + w implies a.mixed@[i] == b.mixed@[i] by {
                assert(same_at(a, b, Place { store: Store::Mixed, at: i }));
            }
            lemma_run_same(a.mixed@, b.mixed@, w * it, w, out);
        },
        Phase::HiddenQuant => {
            let w = m.grain.width();
            assert forall|i: int| w * it <= i < w * it + w implies a.hidden@[i] == b.hidden@[i] by {
                assert(same_at(a, b, Place { store: Store::Hidden, at: i }));
            }
            lemma_run_same(a.hidden@, b.hidden@, w * it, w, out);
        },
        Phase::Route => {
            assert(a.normed@ =~= b.normed@) by {
                assert forall|i: int| 0 <= i < a.normed@.len() implies a.normed@[i] == b.normed@[i] by {
                    assert(same_at(a, b, Place { store: Store::Normed, at: i }));
                }
            }
        },
        Phase::Qkv | Phase::GateUp => {
            assert(a.levels@ =~= b.levels@) by {
                assert forall|i: int| 0 <= i < a.levels@.len() implies a.levels@[i] == b.levels@[i] by {
                    assert(same_at(a, b, Place { store: Store::Levels, at: i }));
                }
            }
            assert(a.scales@ =~= b.scales@) by {
                assert forall|i: int| 0 <= i < a.scales@.len() implies a.scales@[i] == b.scales@[i] by {
                    assert(same_at(a, b, Place { store: Store::Scales, at: i }));
                }
            }
            assert(a.sums@ =~= b.sums@) by {
                assert forall|i: int| 0 <= i < a.sums@.len() implies a.sums@[i] == b.sums@[i] by {
                    assert(same_at(a, b, Place { store: Store::Sums, at: i }));
                }
            }
        },
        Phase::Rope => {
            if it >= c.nh {
                let (h, hd) = (it - c.nh, c.hd as int);
                assert(a.values@.subrange(h * hd, h * hd + hd) =~= b.values@.subrange(
                    h * hd,
                    h * hd + hd,
                )) by {
                    lemma_mul_inequality(h + 1, c.nkv as int, hd);
                    lemma_mul_is_distributive_add_other_way(hd, h, 1);
                    assert(0 <= h * hd) by (nonlinear_arith)
                        requires
                            0 <= h,
                            0 <= hd,
                    ;
                    assert forall|i: int| h * hd <= i < h * hd + hd implies a.values@[i]
                        == b.values@[i] by {
                        assert(same_at(a, b, Place { store: Store::Values, at: i }));
                    }
                }
            }
        },
        Phase::Attend => {
            assert(a.key_cache@ =~= b.key_cache@) by {
                assert forall|i: int| 0 <= i < a.key_cache@.len() implies a.key_cache@[i] == b.key_cache@[i] by {
                    assert(same_at(a, b, Place { store: Store::KeyCache, at: i }));
                }
            }
            assert(a.value_cache@ =~= b.value_cache@) by {
                assert forall|i: int| 0 <= i < a.value_cache@.len() implies a.value_cache@[i] == b.value_cache@[i] by {
                    assert(same_at(a, b, Place { store: Store::ValueCache, at: i }));
                }
            }
            lemma_mul_inequality(it + 1, c.nh as int, c.hd as int);
            lemma_mul_is_distributive_add_other_way(c.hd as int, it, 1);
            assert(0 <= it * c.hd) by (nonlinear_arith)
                requires
                    0 <= it,
                    0 <= c.hd,
            ;
            assert forall|i: int| it * c.hd <= i < it * c.hd + c.hd implies a.queries@[i]
                == b.queries@[i] by {
                assert(same_at(a, b, Place { store: Store::Queries, at: i }));
            }
            let (kc, vc) = (a.key_cache@, a.value_cache@);
            let base = layer * (4096 * c.nkv * c.hd);
            lemma_scores_same(c, it, a.queries@, b.queries@, kc, base, t.pos + 1);
            assert(taken_head(c, layer, t.pos as int, it, a.queries@, kc, vc) =~= taken_head(
                c,
                layer,
                t.pos as int,
                it,
                b.queries@,
                kc,
                vc,
            ));
        },
        Phase::Project => {
            assert(a.mixed_levels@ =~= b.mixed_levels@) by {
                assert forall|i: int| 0 <= i < a.mixed_levels@.len() implies a.mixed_levels@[i] == b.mixed_levels@[i] by {
                    assert(same_at(a, b, Place { store: Store::MixedLevels, at: i }));
                }
            }
            assert(a.mixed_scales@ =~= b.mixed_scales@) by {
                assert forall|i: int| 0 <= i < a.mixed_scales@.len() implies a.mixed_scales@[i] == b.mixed_scales@[i] by {
                    assert(same_at(a, b, Place { store: Store::MixedScales, at: i }));
                }
            }
            assert(a.mixed_sums@ =~= b.mixed_sums@) by {
                assert forall|i: int| 0 <= i < a.mixed_sums@.len() implies a.mixed_sums@[i] == b.mixed_sums@[i] by {
                    assert(same_at(a, b, Place { store: Store::MixedSums, at: i }));
                }
            }
        },
        Phase::Down => {
            assert(a.hidden_levels@ =~= b.hidden_levels@) by {
                assert forall|i: int| 0 <= i < a.hidden_levels@.len() implies a.hidden_levels@[i] == b.hidden_levels@[i] by {
                    assert(same_at(a, b, Place { store: Store::HiddenLevels, at: i }));
                }
            }
            assert(a.hidden_scales@ =~= b.hidden_scales@) by {
                assert forall|i: int| 0 <= i < a.hidden_scales@.len() implies a.hidden_scales@[i] == b.hidden_scales@[i] by {
                    assert(same_at(a, b, Place { store: Store::HiddenScales, at: i }));
                }
            }
            assert(a.hidden_sums@ =~= b.hidden_sums@) by {
                assert forall|i: int| 0 <= i < a.hidden_sums@.len() implies a.hidden_sums@[i] == b.hidden_sums@[i] by {
                    assert(same_at(a, b, Place { store: Store::HiddenSums, at: i }));
                }
            }
        },
        _ => {},
    }
}

/// A unit that runs at the same time, that is with no barrier between, does not
/// disturb: whether unit `j` of step `l` sees what unit `i` of step `k` has written
/// or what stood there before, it writes the same.
pub proof fn units_do_not_disturb<S: Analytic>(
    m: Model<S>,
    c: Cfg,
    blob: Seq<u8>,
    t: Turn<S>,
    k: int,
    l: int,
    i: int,
    j: int,
    a: Shared<S>,
    b: Shared<S>,
    out: Seq<Piece<S>>,
)
    requires
        c.is_sound(),
        0 <= k,
        0 <= l,
        unparted(k, l, qwen_layer(), qwen_head(), c.nl as int, |f: Phase| qwen_syncs(f))
            || unparted(
            l,
            k,
            qwen_layer(),
            qwen_head(),
            c.nl as int,
            |f: Phase| qwen_syncs(f),
        ),
        (k, i) != (l, j),
        step_of(k, qwen_layer(), qwen_head(), c.nl as int) matches Some((f, layer)) && 0 <= i
            < qwen_units_of(f, c, m.grain) && (forall|p: Place|
            !qwen_writes(f, c, m.grain, layer, t.pos as int, i, p) ==> #[trigger] same_at(
                a,
                b,
                p,
            )),
        step_of(l, qwen_layer(), qwen_head(), c.nl as int) matches Some((g, _)) && 0 <= j
            < qwen_units_of(g, c, m.grain) && a.serves(g, c, m.grain, j) && b.serves(
            g,
            c,
            m.grain,
            j,
        ) && a.own@ == b.own@,
    ensures
        step_of(l, qwen_layer(), qwen_head(), c.nl as int) matches Some((g, layer))
            && m.is_written(c, blob, g, layer, t, a, j, out) == m.is_written(
            c,
            blob,
            g,
            layer,
            t,
            b,
            j,
            out,
        ),
{
    let (f, la) = step_of(k, qwen_layer(), qwen_head(), c.nl as int)->0;
    let (g, lb) = step_of(l, qwen_layer(), qwen_head(), c.nl as int)->0;
    assert forall|p: Place| qwen_reads(g, c, m.grain, j, p) implies #[trigger] same_at(a, b, p) by {
        if qwen_writes(f, c, m.grain, la, t.pos as int, i, p) {
            qwen_units_never_meet(c, m.grain, c.nl as int, t.pos as int, k, l, i, j, p);
        }
    }
    units_read_their_places(m, c, blob, g, lb, t, j, a, b, out);
}

/// What a unit writes fills its runs: there is a piece for each of them, with as
/// many places. The phase of the logits is not among them: there a worker writes
/// its best token.
pub proof fn pieces_fill_their_runs<S: Analytic>(
    m: Model<S>,
    c: Cfg,
    blob: Seq<u8>,
    phase: Phase,
    layer: int,
    t: Turn<S>,
    it: int,
    b: Shared<S>,
    out: Seq<Piece<S>>,
    i: int,
)
    requires
        c.is_sound(),
        phase != Phase::Head,
        0 <= it < qwen_units_of(phase, c, m.grain),
        b.serves(phase, c, m.grain, it),
        m.is_written(c, blob, phase, layer, t, b, it, out),
    ensures
        out.len() == qwen_spans(phase, c, m.grain, layer, t.pos as int, it).len(),
        0 <= i < out.len() ==> out[i].places() == qwen_spans(
            phase,
            c,
            m.grain,
            layer,
            t.pos as int,
            it,
        )[i].len,
{
    if phase == Phase::Rope && it >= c.nh {
        let (h, hd) = (it - c.nh, c.hd as int);
        lemma_mul_inequality(h + 1, c.nkv as int, hd);
        lemma_mul_is_distributive_add_other_way(hd, h, 1);
        assert(0 <= h * hd) by (nonlinear_arith)
            requires
                0 <= h,
                0 <= hd,
        ;
    }
}

} // verus!
