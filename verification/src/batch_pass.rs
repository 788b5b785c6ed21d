//! The experts of a batch against the steps of a pass: a token's stream after a batch is
//! its stream after the steps in which a pass of its own goes through the same experts.
use crate::access::{gptoss_reads, gptoss_spans, held, span, Place, Store};
use crate::analytic::Analytic;
use crate::batch::{batch_stream, slot_gates};
use crate::batch_store::{
    batch_is_token_by_token, down_at, gate_up_at, hidden_block, hidden_is_left, levels_are_left,
};
use crate::config::Cfg;
use crate::gptoss_order::{
    is_step_of, is_task, leaving, own_place, seen, shows, stands, step_leaves_the_rest,
    step_leaves_what_items_write,
};
use crate::gptoss_pass::{block_at, gate_up_four, stream_four, Model, Shared, Turn};
use crate::order::{is_course, levels_in, reals_in};
use crate::piece::{Cell, Piece};
use crate::quantize::{levels_of, scale_of, scales_of};
use crate::schedule::{gptoss_head, gptoss_items_of, gptoss_layer, step_of, Phase};
use vstd::prelude::*;

verus! {

/// Where a view shows a buffer of numbers, it shows what the buffers hold.
proof fn lemma_reals_seen<S: Analytic>(
    phase: Phase,
    c: Cfg,
    it: int,
    b: Shared<S>,
    mem: spec_fn(Place) -> Cell<S>,
    store: Store,
    x: Seq<S>,
)
    requires
        shows(phase, c, it, b, mem),
        forall|i: int|
            0 <= i < x.len() ==> gptoss_reads(phase, c, it, Place { store, at: i }) && seen(
                b,
                Place { store, at: i },
            ) == Some(Cell::Real(#[trigger] x[i])),
    ensures
        x == reals_in(mem, store, x.len() as int),
{
    let y = reals_in(mem, store, x.len() as int);
    assert(x =~= y) by {
        assert forall|i: int| 0 <= i < x.len() implies x[i] == y[i] by {
            let p = Place { store, at: i };
            assert(seen(b, p) == Some(Cell::Real(x[i])));
            assert(mem(p) == Cell::Real(x[i]));
        }
    }
}

/// Where a view shows a buffer of levels, it shows what the buffers hold.
proof fn lemma_levels_seen<S: Analytic>(
    phase: Phase,
    c: Cfg,
    it: int,
    b: Shared<S>,
    mem: spec_fn(Place) -> Cell<S>,
    store: Store,
    x: Seq<i8>,
)
    requires
        shows(phase, c, it, b, mem),
        forall|i: int|
            0 <= i < x.len() ==> gptoss_reads(phase, c, it, Place { store, at: i }) && seen(
                b,
                Place { store, at: i },
            ) == Some(Cell::<S>::Level(#[trigger] x[i])),
    ensures
        x == levels_in(mem, store, x.len() as int),
{
    let y = levels_in(mem, store, x.len() as int);
    assert(x =~= y) by {
        assert forall|i: int| 0 <= i < x.len() implies x[i] == y[i] by {
            let p = Place { store, at: i };
            assert(seen(b, p) == Some(Cell::<S>::Level(x[i])));
            assert(mem(p) == Cell::<S>::Level(x[i]));
        }
    }
}

/// The step of the input projections leaves their numbers.
pub proof fn gate_up_step_leaves<S: Analytic>(
    m: Model<S>,
    c: Cfg,
    blob: Seq<u8>,
    want: bool,
    t: Turn<S>,
    k: int,
    layer: int,
    tasks: Seq<(int, int)>,
    mems: Seq<spec_fn(Place) -> Cell<S>>,
)
    requires
        c.is_sound(),
        c.is_gptoss(),
        t.fits(c),
        0 <= k,
        step_of(k, gptoss_layer(), gptoss_head(want), c.nl as int) == Some((Phase::GateUp, layer)),
        is_course(tasks, mems, leaving(m, c, blob, want, t)),
        is_step_of(c, want, k, tasks),
    ensures
        hidden_is_left(
            m.layers@[layer],
            c,
            t.top@,
            levels_in(mems[0], Store::Levels, c.d as int),
            reals_in(mems[0], Store::Scales, c.d as int / 32),
            m.pow@,
            reals_in(mems.last(), Store::Hidden, c.topk * (2 * c.d)),
        ),
        forall|p: Place| p.store != Store::Hidden ==> #[trigger] mems.last()(p) == mems[0](p),
{
    let (l, d) = (m.layers@[layer], c.d as int);
    let x = levels_in(mems[0], Store::Levels, d);
    let xs = reals_in(mems[0], Store::Scales, d / 32);
    let hidden = reals_in(mems.last(), Store::Hidden, c.topk * (2 * c.d));
    assert(0 <= c.topk * (2 * c.d));
    assert(c.topk * (2 * c.d) == 4 * (c.topk * (2 * (d / 4)))) by (nonlinear_arith)
        requires
            d == 4 * (d / 4),
            c.d == d,
    ;
    assert forall|it: int, i: int|
        #![trigger gate_up_four(l, c, it, t.top@, x, xs, m.pow@)[i]]
        0 <= it < c.topk * (2 * (c.d as int / 4)) && 0 <= i < 4 implies hidden[4 * it + i]
        == gate_up_four(l, c, it, t.top@, x, xs, m.pow@)[i] by {
        assert(is_task(c, want, (k, it)));
        step_leaves_what_items_write(m, c, blob, want, t, k, tasks, mems, it);
        let spans = gptoss_spans(Phase::GateUp, c, layer, t.pos as int, it);
        let (b, out) = choose|b: Shared<S>, out: Seq<Piece<S>>|
            {
                &&& #[trigger] m.is_written(c, blob, Phase::GateUp, layer, t, b, it, out)
                &&& shows(Phase::GateUp, c, it, b, mems[0])
                &&& stands(mems.last(), spans, out)
            };
        lemma_levels_seen(Phase::GateUp, c, it, b, mems[0], Store::Levels, b.levels@);
        lemma_reals_seen(Phase::GateUp, c, it, b, mems[0], Store::Scales, b.scales@);
        let p = Place { store: Store::Hidden, at: 4 * it + i };
        assert(spans[0] == span(Store::Hidden, 4 * it, 4));
        assert(spans[0].holds(p));
        assert(mems.last()(p) == out[0].cell(i));
    }
    assert forall|p: Place| p.store != Store::Hidden implies #[trigger] mems.last()(p) == mems[0](
        p,
    ) by {
        assert forall|it: int|
            0 <= it < gptoss_items_of(Phase::GateUp, c) implies !held(
            #[trigger] gptoss_spans(Phase::GateUp, c, layer, t.pos as int, it),
            p,
        ) by {}
        step_leaves_the_rest(m, c, blob, want, t, k, tasks, mems, p);
    }
}

/// The step of the activation leaves the levels and scales of all hidden layers.
pub proof fn activate_step_leaves<S: Analytic>(
    m: Model<S>,
    c: Cfg,
    blob: Seq<u8>,
    want: bool,
    t: Turn<S>,
    k: int,
    layer: int,
    tasks: Seq<(int, int)>,
    mems: Seq<spec_fn(Place) -> Cell<S>>,
)
    requires
        c.is_sound(),
        c.is_gptoss(),
        t.fits(c),
        0 <= k,
        step_of(k, gptoss_layer(), gptoss_head(want), c.nl as int) == Some(
            (Phase::Activate, layer),
        ),
        is_course(tasks, mems, leaving(m, c, blob, want, t)),
        is_step_of(c, want, k, tasks),
    ensures
        levels_are_left(
            c,
            reals_in(mems[0], Store::Hidden, c.topk * (2 * c.d)),
            levels_in(mems.last(), Store::HiddenLevels, c.topk * c.d),
            reals_in(mems.last(), Store::HiddenScales, c.topk * (c.d as int / 32)),
        ),
        forall|p: Place|
            p.store != Store::HiddenLevels && p.store != Store::HiddenScales
                ==> #[trigger] mems.last()(p) == mems[0](p),
{
    let (d, nb) = (c.d as int, c.d as int / 32);
    let hidden = reals_in(mems[0], Store::Hidden, c.topk * (2 * c.d));
    let h = levels_in(mems.last(), Store::HiddenLevels, c.topk * c.d);
    let hs = reals_in(mems.last(), Store::HiddenScales, c.topk * nb);
    assert(c.topk * d == 32 * (c.topk * nb) && 0 <= c.topk * nb) by (nonlinear_arith)
        requires
            d == 32 * nb,
            0 <= nb,
            0 <= c.topk,
    ;
    assert(c.topk * d <= c.topk * (2 * c.d)) by (nonlinear_arith)
        requires
            d == c.d,
            0 <= c.topk,
            0 <= d,
    ;
    assert forall|it: int| 0 <= it < c.topk * nb implies {
        let block = #[trigger] hidden_block(hidden, d, it);
        &&& hs[it] == scale_of(block, 0, 32)
        &&& forall|i: int| 0 <= i < 32 ==> h[32 * it + i] == #[trigger] block_at(block, 0)[i]
    } by {
        let block = hidden_block(hidden, d, it);
        assert(is_task(c, want, (k, it)));
        step_leaves_what_items_write(m, c, blob, want, t, k, tasks, mems, it);
        let spans = gptoss_spans(Phase::Activate, c, layer, t.pos as int, it);
        let (b, out) = choose|b: Shared<S>, out: Seq<Piece<S>>|
            {
                &&& #[trigger] m.is_written(c, blob, Phase::Activate, layer, t, b, it, out)
                &&& shows(Phase::Activate, c, it, b, mems[0])
                &&& stands(mems.last(), spans, out)
            };
        lemma_reals_seen(Phase::Activate, c, it, b, mems[0], Store::Hidden, b.hidden@);
        let p = Place { store: Store::HiddenScales, at: it };
        assert(spans[1] == span(Store::HiddenScales, it, 1));
        assert(spans[1].holds(p));
        assert(mems.last()(p) == out[1].cell(0));
        assert forall|i: int| 0 <= i < 32 implies h[32 * it + i] == #[trigger] block_at(
            block,
            0,
        )[i] by {
            let q = Place { store: Store::HiddenLevels, at: 32 * it + i };
            assert(spans[0] == span(Store::HiddenLevels, 32 * it, 32));
            assert(spans[0].holds(q));
            assert(mems.last()(q) == out[0].cell(i));
        }
    }
    assert forall|it: int| 0 <= it < hs.len() implies #[trigger] hs[it] == scale_of(
        hidden_block(hidden, d, it),
        0,
        32,
    ) by {
        let block = hidden_block(hidden, d, it);
    }
    assert forall|it: int, i: int|
        #![trigger block_at(hidden_block(hidden, c.d as int, it), 0)[i]]
        0 <= it < hs.len() && 0 <= i < 32 implies h[32 * it + i] == block_at(
        hidden_block(hidden, c.d as int, it),
        0,
    )[i] by {
        let block = hidden_block(hidden, d, it);
    }
    assert forall|p: Place|
        p.store != Store::HiddenLevels && p.store != Store::HiddenScales implies #[trigger] mems.last()(
        p,
    ) == mems[0](p) by {
        assert forall|it: int|
            0 <= it < gptoss_items_of(
                Phase::Activate,
                c,
            ) implies !held(
            #[trigger] gptoss_spans(Phase::Activate, c, layer, t.pos as int, it),
            p,
        ) by {
            let spans = gptoss_spans(Phase::Activate, c, layer, t.pos as int, it);
            assert(forall|n: int| 0 <= n < spans.len() ==> !(#[trigger] spans[n]).holds(p));
        }
        step_leaves_the_rest(m, c, blob, want, t, k, tasks, mems, p);
    }
}

/// The step of the down projections adds what the experts give to the stream.
pub proof fn down_step_leaves<S: Analytic>(
    m: Model<S>,
    c: Cfg,
    blob: Seq<u8>,
    want: bool,
    t: Turn<S>,
    k: int,
    layer: int,
    tasks: Seq<(int, int)>,
    mems: Seq<spec_fn(Place) -> Cell<S>>,
    quad: int,
    i: int,
    x: S,
)
    requires
        c.is_sound(),
        c.is_gptoss(),
        t.fits(c),
        0 <= k,
        step_of(k, gptoss_layer(), gptoss_head(want), c.nl as int) == Some((Phase::Down, layer)),
        is_course(tasks, mems, leaving(m, c, blob, want, t)),
        is_step_of(c, want, k, tasks),
        0 <= quad < c.d / 4,
        0 <= i < 4,
        mems[0](Place { store: Store::Stream, at: 4 * quad + i }) == Cell::Real(x),
    ensures
        mems.last()(Place { store: Store::Stream, at: 4 * quad + i }) == Cell::Real(
            m.layers@[layer].stream_value(
                c,
                quad,
                i,
                x,
                t.top@,
                t.weights@,
                levels_in(mems[0], Store::HiddenLevels, c.topk * c.d),
                reals_in(mems[0], Store::HiddenScales, c.topk * (c.d as int / 32)),
                m.pow@,
                c.topk as int,
            ),
        ),
{
    assert(is_task(c, want, (k, quad)));
    step_leaves_what_items_write(m, c, blob, want, t, k, tasks, mems, quad);
    let spans = gptoss_spans(Phase::Down, c, layer, t.pos as int, quad);
    let (b, out) = choose|b: Shared<S>, out: Seq<Piece<S>>|
        {
            &&& #[trigger] m.is_written(c, blob, Phase::Down, layer, t, b, quad, out)
            &&& shows(Phase::Down, c, quad, b, mems[0])
            &&& stands(mems.last(), spans, out)
        };
    lemma_levels_seen(Phase::Down, c, quad, b, mems[0], Store::HiddenLevels, b.hidden_levels@);
    lemma_reals_seen(Phase::Down, c, quad, b, mems[0], Store::HiddenScales, b.hidden_scales@);
    let p = Place { store: Store::Stream, at: 4 * quad + i };
    assert(own_place(Phase::Down, c, quad, i) == p);
    assert(Cell::Real(b.own@[i]) == mems[0](p));
    assert(spans[0] == span(Store::Stream, 4 * quad, 4));
    assert(spans[0].holds(p));
    assert(mems.last()(p) == out[0].cell(i));
    let four = stream_four(
        m.layers@[layer],
        c,
        quad,
        b.own@,
        t.top@,
        t.weights@,
        b.hidden_levels@,
        b.hidden_scales@,
        m.pow@,
    );
    assert(out[0].cell(i) == Cell::Real(four[i]));
}

/// What the steps of the experts of a pass leave, one after another: the courses of the
/// input projections, of the activation and of the down projections.
pub struct ExpertSteps<S> {
    pub gate_up: (Seq<(int, int)>, Seq<spec_fn(Place) -> Cell<S>>),
    pub activate: (Seq<(int, int)>, Seq<spec_fn(Place) -> Cell<S>>),
    pub down: (Seq<(int, int)>, Seq<spec_fn(Place) -> Cell<S>>),
}

impl<S: Analytic> ExpertSteps<S> {
    /// These are the steps `k`, `k + 1` and `k + 2` of a pass, and step `k` is that of
    /// the input projections of a layer.
    pub open spec fn are_run(
        self,
        m: Model<S>,
        c: Cfg,
        blob: Seq<u8>,
        want: bool,
        t: Turn<S>,
        k: int,
        layer: int,
    ) -> bool {
        let (ph, hd, nl) = (gptoss_layer(), gptoss_head(want), c.nl as int);
        let step = leaving(m, c, blob, want, t);
        &&& 0 <= k
        &&& step_of(k, ph, hd, nl) == Some((Phase::GateUp, layer))
        &&& step_of(k + 1, ph, hd, nl) == Some((Phase::Activate, layer))
        &&& step_of(k + 2, ph, hd, nl) == Some((Phase::Down, layer))
        &&& is_course(self.gate_up.0, self.gate_up.1, step)
        &&& is_course(self.activate.0, self.activate.1, step)
        &&& is_course(self.down.0, self.down.1, step)
        &&& is_step_of(c, want, k, self.gate_up.0)
        &&& is_step_of(c, want, k + 1, self.activate.0)
        &&& is_step_of(c, want, k + 2, self.down.0)
        &&& self.activate.1[0] == self.gate_up.1.last()
        &&& self.down.1[0] == self.activate.1.last()
    }
}

/// The experts of a batch do for a token what those of a pass of its own do. Token `b`
/// of the batch and the pass have the same levels and scales, the same experts with the
/// same weights, and the number `x` at place `4 * quad + i` of the stream. What the
/// items of the batch have left is put into its buffers. Then the batch leaves in the
/// stream what the steps of the pass leave in it, in whatever order their items run.
pub proof fn batch_is_pass_by_pass<S: Analytic>(
    m: Model<S>,
    c: Cfg,
    blob: Seq<u8>,
    want: bool,
    t: Turn<S>,
    k: int,
    layer: int,
    steps: ExpertSteps<S>,
    chosen: Seq<usize>,
    weights: Seq<S>,
    xq: Seq<Vec<i8>>,
    xs: Seq<Vec<S>>,
    gu: Seq<S>,
    hq: Seq<Vec<i8>>,
    hs: Seq<Vec<S>>,
    ffn: Seq<S>,
    b: int,
    quad: int,
    i: int,
    x: S,
)
    requires
        c.is_sound(),
        c.is_gptoss(),
        t.fits(c),
        steps.are_run(m, c, blob, want, t, k, layer),
        0 <= b,
        (b + 1) * c.topk <= chosen.len(),
        (b + 1) * c.topk <= weights.len(),
        t.top@ == chosen.subrange(b * c.topk, (b + 1) * c.topk),
        t.weights@ == weights.subrange(b * c.topk, (b + 1) * c.topk),
        xq[b]@ == levels_in(steps.gate_up.1[0], Store::Levels, c.d as int),
        xs[b]@ == reals_in(steps.gate_up.1[0], Store::Scales, c.d as int / 32),
        forall|p: int|
            b * c.topk * (2 * c.d) <= p < (b + 1) * c.topk * (2 * c.d) ==> #[trigger] gu[p]
                == gate_up_at(m.layers@[layer], c, chosen, xq, xs, m.pow@, p),
        forall|slot: int|
            b * c.topk <= slot < (b + 1) * c.topk ==> (#[trigger] hq[slot])@ == levels_of(
                slot_gates(gu, slot, c.d as int),
            ),
        forall|slot: int|
            b * c.topk <= slot < (b + 1) * c.topk ==> (#[trigger] hs[slot])@ == scales_of(
                slot_gates(gu, slot, c.d as int),
            ),
        forall|p: int|
            b * c.topk * c.d <= p < (b + 1) * c.topk * c.d ==> #[trigger] ffn[p] == down_at(
                m.layers@[layer],
                c,
                chosen,
                hq,
                hs,
                m.pow@,
                p,
            ),
        0 <= quad < c.d / 4,
        0 <= i < 4,
        steps.gate_up.1[0](Place { store: Store::Stream, at: 4 * quad + i }) == Cell::Real(x),
    ensures
        steps.down.1.last()(Place { store: Store::Stream, at: 4 * quad + i }) == Cell::Real(
            batch_stream(
                x,
                weights,
                ffn,
                b,
                c.topk as int,
                c.d as int,
                4 * quad + i,
                c.topk as int,
            ),
        ),
{
    let l = m.layers@[layer];
    let p = Place { store: Store::Stream, at: 4 * quad + i };
    gate_up_step_leaves(m, c, blob, want, t, k, layer, steps.gate_up.0, steps.gate_up.1);
    activate_step_leaves(m, c, blob, want, t, k + 1, layer, steps.activate.0, steps.activate.1);
    assert(steps.gate_up.1.last()(p) == steps.gate_up.1[0](p));
    assert(steps.activate.1.last()(p) == steps.activate.1[0](p));
    down_step_leaves(
        m,
        c,
        blob,
        want,
        t,
        k + 2,
        layer,
        steps.down.0,
        steps.down.1,
        quad,
        i,
        x,
    );
    let hidden = reals_in(steps.activate.1[0], Store::Hidden, c.topk * (2 * c.d));
    let levels = levels_in(steps.down.1[0], Store::HiddenLevels, c.topk * c.d);
    let scales = reals_in(steps.down.1[0], Store::HiddenScales, c.topk * (c.d as int / 32));
    batch_is_token_by_token(
        l,
        c,
        chosen,
        weights,
        xq,
        xs,
        m.pow@,
        gu,
        hq,
        hs,
        ffn,
        b,
        hidden,
        levels,
        scales,
        quad,
        i,
        x,
    );
}

} // verus!
