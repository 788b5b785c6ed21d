//! The steps of a forward pass of the model with normalized heads leave the shared
//! buffers with the same contents whichever workers run their units, and in
//! whatever order.
use crate::access::{
    held, qwen_reads, qwen_runs_are_written, qwen_spans, qwen_units_never_meet, qwen_units_of,
    unparted, Place, Store,
};
use crate::analytic::Analytic;
use crate::config::Cfg;
use crate::kmat::Grain;
use crate::order::{
    apart, chooses, goes_by_its_reads, is_course, is_left, keeps_the_rest, level_in, order_is_free,
    orders_agree, real_in, reals_in, respects, rewrites, settled, sum_in, Courses,
};
use crate::piece::{Cell, Piece};
use crate::qwen_pass::{agree, same_at, units_read_their_places, Model, Shared, Turn};
use crate::sampling::{is_routed, routes_are_one, Softmax};
use crate::schedule::{qwen_head, qwen_layer, qwen_syncs, qwen_turns_in_layers, step_of, Phase};
use vstd::prelude::*;

verus! {

/// What a view of the shared buffers holds at a place, where it has it.
pub open spec fn seen<S: Analytic>(b: Shared<S>, p: Place) -> Option<Cell<S>> {
    match p.store {
        Store::Stream => real_in(b.stream@, p.at),
        Store::Squares => real_in(b.squares@, p.at),
        Store::Normed => real_in(b.normed@, p.at),
        Store::Levels => level_in(b.levels@, p.at),
        Store::Scales => real_in(b.scales@, p.at),
        Store::Sums => sum_in(b.sums@, p.at),
        Store::Queries => real_in(b.queries@, p.at),
        Store::Values => real_in(b.values@, p.at),
        Store::KeyCache => real_in(b.key_cache@, p.at),
        Store::ValueCache => real_in(b.value_cache@, p.at),
        Store::Mixed => real_in(b.mixed@, p.at),
        Store::MixedLevels => level_in(b.mixed_levels@, p.at),
        Store::MixedScales => real_in(b.mixed_scales@, p.at),
        Store::MixedSums => sum_in(b.mixed_sums@, p.at),
        Store::Hidden => real_in(b.hidden@, p.at),
        Store::HiddenLevels => level_in(b.hidden_levels@, p.at),
        Store::HiddenScales => real_in(b.hidden_scales@, p.at),
        Store::HiddenSums => sum_in(b.hidden_sums@, p.at),
        _ => None,
    }
}

/// Place `j` of the run that unit `it` of a phase rewrites.
pub open spec fn own_place(phase: Phase, c: Cfg, it: int, j: int) -> Place {
    let hd = c.hd as int;
    match phase {
        Phase::Rope => if it < c.nh {
            Place { store: Store::Queries, at: it * hd + j }
        } else {
            Place { store: Store::Keys, at: (it - c.nh) * hd + j }
        },
        _ => Place { store: Store::Stream, at: it + j },
    }
}

/// The view `b` shows unit `it` of a phase what the buffers hold, wherever the unit
/// reads.
pub open spec fn shows<S: Analytic>(
    phase: Phase,
    c: Cfg,
    grain: Grain,
    it: int,
    b: Shared<S>,
    mem: spec_fn(Place) -> Cell<S>,
) -> bool {
    &&& b.serves(phase, c, grain, it)
    &&& forall|p: Place|
        qwen_reads(phase, c, grain, it, p) ==> (#[trigger] seen(b, p) matches Some(v) ==> mem(p)
            == v)
    &&& rewrites(phase) ==> forall|j: int|
        0 <= j < b.own@.len() ==> Cell::Real(#[trigger] b.own@[j]) == mem(
            own_place(phase, c, it, j),
        )
}

/// The turn as unit `it` takes it: with the run of its worker.
pub open spec fn turn_of<'a, S: Analytic>(
    t: Turn<'a, S>,
    runs: Seq<(usize, usize)>,
    it: int,
) -> Turn<'a, S> {
    Turn { tok: t.tok, pos: t.pos, top: t.top, weights: t.weights, run: runs[it] }
}

/// The logits of a run of tokens, as a view shows them.
pub open spec fn logits_of<S: Analytic>(
    m: Model<S>,
    blob: Seq<u8>,
    b: Shared<S>,
    run: (usize, usize),
) -> Seq<S> {
    Seq::new(
        (run.1 - run.0) as nat,
        |i: int|
            m.head.row_value(blob, run.0 + i, b.levels@, b.scales@, b.sums@, m.grain),
    )
}

/// Unit `it` of the phase of the logits leaves a word that `best` gives for the
/// logits of its run and the first token of the run.
pub open spec fn leaves_best<S: Analytic>(
    m: Model<S>,
    c: Cfg,
    blob: Seq<u8>,
    run: (usize, usize),
    best: spec_fn(Seq<S>, int) -> u64,
    it: int,
    before: spec_fn(Place) -> Cell<S>,
    after: spec_fn(Place) -> Cell<S>,
    b: Shared<S>,
) -> bool {
    let own = Place { store: Store::Bests, at: it };
    &&& shows(Phase::Head, c, m.grain, it, b, before)
    &&& after(own) == Cell::<S>::Word(best(logits_of(m, blob, b, run), run.0 as int))
    &&& forall|p: Place| p != own ==> #[trigger] after(p) == before(p)
}

/// Unit `task.1` of step `task.0` of a pass finds the contents `before` and leaves
/// the contents `after`. Where a worker is one unit, `runs` holds the runs of the
/// workers.
pub open spec fn leaves<S: Analytic>(
    m: Model<S>,
    c: Cfg,
    blob: Seq<u8>,
    t: Turn<S>,
    runs: Seq<(usize, usize)>,
    best: spec_fn(Seq<S>, int) -> u64,
    task: (int, int),
    before: spec_fn(Place) -> Cell<S>,
    after: spec_fn(Place) -> Cell<S>,
) -> bool {
    match step_of(task.0, qwen_layer(), qwen_head(), c.nl as int) {
        Some((Phase::Head, _)) => exists|b: Shared<S>| #[trigger]
            leaves_best(m, c, blob, runs[task.1], best, task.1, before, after, b),
        Some((phase, layer)) => exists|b: Shared<S>, out: Seq<Piece<S>>|
            {
                &&& #[trigger] m.is_written(
                    c,
                    blob,
                    phase,
                    layer,
                    turn_of(t, runs, task.1),
                    b,
                    task.1,
                    out,
                )
                &&& shows(phase, c, m.grain, task.1, b, before)
                &&& is_left(
                    before,
                    after,
                    qwen_spans(phase, c, m.grain, layer, t.pos as int, task.1),
                    out,
                )
            },
        None => false,
    }
}

/// What the units of a pass leave of what they find.
pub open spec fn leaving<S: Analytic>(
    m: Model<S>,
    c: Cfg,
    blob: Seq<u8>,
    t: Turn<S>,
    runs: Seq<(usize, usize)>,
    best: spec_fn(Seq<S>, int) -> u64,
) -> spec_fn((int, int), spec_fn(Place) -> Cell<S>, spec_fn(Place) -> Cell<S>) -> bool {
    |task: (int, int), before: spec_fn(Place) -> Cell<S>, after: spec_fn(Place) -> Cell<S>|
        leaves(m, c, blob, t, runs, best, task, before, after)
}

/// The unit is one of a step of a pass.
pub open spec fn is_task(c: Cfg, grain: Grain, task: (int, int)) -> bool {
    &&& 0 <= task.0
    &&& match step_of(task.0, qwen_layer(), qwen_head(), c.nl as int) {
        Some((phase, _)) => 0 <= task.1 < qwen_units_of(phase, c, grain),
        None => false,
    }
}

/// No barrier stands between the steps of two units.
pub open spec fn at_once(c: Cfg, a: (int, int), b: (int, int)) -> bool {
    let (layer, head, nl) = (qwen_layer(), qwen_head(), c.nl as int);
    ||| unparted(a.0, b.0, layer, head, nl, |f: Phase| qwen_syncs(f))
    ||| unparted(b.0, a.0, layer, head, nl, |f: Phase| qwen_syncs(f))
}

/// The place is in a run that the unit writes.
spec fn writes_at(c: Cfg, grain: Grain, pos: int, task: (int, int), p: Place) -> bool {
    match step_of(task.0, qwen_layer(), qwen_head(), c.nl as int) {
        Some((phase, layer)) => held(qwen_spans(phase, c, grain, layer, pos, task.1), p),
        None => false,
    }
}

/// The unit reads the place.
spec fn reads_at(c: Cfg, grain: Grain, task: (int, int), p: Place) -> bool {
    match step_of(task.0, qwen_layer(), qwen_head(), c.nl as int) {
        Some((phase, _)) => qwen_reads(phase, c, grain, task.1, p),
        None => false,
    }
}

/// Views of contents that agree on what a unit reads agree for the unit.
proof fn lemma_views_agree<S: Analytic>(
    phase: Phase,
    c: Cfg,
    grain: Grain,
    it: int,
    a: Shared<S>,
    m: spec_fn(Place) -> Cell<S>,
    b: Shared<S>,
    n: spec_fn(Place) -> Cell<S>,
)
    requires
        shows(phase, c, grain, it, a, m),
        shows(phase, c, grain, it, b, n),
        forall|p: Place| qwen_reads(phase, c, grain, it, p) ==> #[trigger] m(p) == n(p),
    ensures
        agree(phase, c, grain, it, a, b),
{
    assert forall|p: Place| qwen_reads(phase, c, grain, it, p) implies #[trigger] same_at(a, b, p) by {
        assert(m(p) == n(p));
        assert(seen(a, p) matches Some(v) ==> m(p) == v);
        assert(seen(b, p) matches Some(v) ==> n(p) == v);
    }
    if rewrites(phase) {
        assert(a.own@ =~= b.own@) by {
            assert(a.own@.len() == b.own@.len());
            assert forall|j: int| 0 <= j < a.own@.len() implies a.own@[j] == b.own@[j] by {
                let p = own_place(phase, c, it, j);
                assert(qwen_reads(phase, c, grain, it, p));
                assert(m(p) == n(p));
                assert(Cell::Real(a.own@[j]) == m(p));
                assert(Cell::Real(b.own@[j]) == n(p));
            }
        }
    }
}

/// What a unit writes is determined by what it sees.
proof fn lemma_written_once<S: Analytic>(
    m: Model<S>,
    c: Cfg,
    blob: Seq<u8>,
    phase: Phase,
    layer: int,
    t: Turn<S>,
    it: int,
    b: Shared<S>,
    x: Seq<Piece<S>>,
    y: Seq<Piece<S>>,
    i: int,
    j: int,
)
    requires
        phase != Phase::Head,
        m.is_written(c, blob, phase, layer, t, b, it, x),
        m.is_written(c, blob, phase, layer, t, b, it, y),
        0 <= i < qwen_spans(phase, c, m.grain, layer, t.pos as int, it).len(),
    ensures
        x[i].cell(j) == y[i].cell(j),
{
    assert(i == 0 || i == 1 || i == 2);
}

/// The runs of a unit of the phase of the logits are its one word.
proof fn lemma_head_place(c: Cfg, grain: Grain, layer: int, pos: int, it: int, p: Place)
    requires
        0 <= it < 12,
    ensures
        held(qwen_spans(Phase::Head, c, grain, layer, pos, it), p) <==> p == (Place {
            store: Store::Bests,
            at: it,
        }),
{
    let spans = qwen_spans(Phase::Head, c, grain, layer, pos, it);
    if p == (Place { store: Store::Bests, at: it }) {
        assert(spans[0].holds(p));
    }
}

proof fn lemma_keeps<S: Analytic>(
    m: Model<S>,
    c: Cfg,
    blob: Seq<u8>,
    t: Turn<S>,
    runs: Seq<(usize, usize)>,
    best: spec_fn(Seq<S>, int) -> u64,
    task: (int, int),
    before: spec_fn(Place) -> Cell<S>,
    after: spec_fn(Place) -> Cell<S>,
    p: Place,
)
    requires
        is_task(c, m.grain, task),
        leaves(m, c, blob, t, runs, best, task, before, after),
        !writes_at(c, m.grain, t.pos as int, task, p),
    ensures
        after(p) == before(p),
{
    let (phase, layer) = step_of(task.0, qwen_layer(), qwen_head(), c.nl as int)->0;
    if phase == Phase::Head {
        lemma_head_place(c, m.grain, layer, t.pos as int, task.1, p);
    }
}

proof fn lemma_best_by_reads<S: Analytic>(
    m: Model<S>,
    c: Cfg,
    blob: Seq<u8>,
    run: (usize, usize),
    best: spec_fn(Seq<S>, int) -> u64,
    it: int,
    b1: spec_fn(Place) -> Cell<S>,
    a1: spec_fn(Place) -> Cell<S>,
    b2: spec_fn(Place) -> Cell<S>,
    a2: spec_fn(Place) -> Cell<S>,
    v1: Shared<S>,
    v2: Shared<S>,
)
    requires
        leaves_best(m, c, blob, run, best, it, b1, a1, v1),
        leaves_best(m, c, blob, run, best, it, b2, a2, v2),
        forall|q: Place|
            qwen_reads(Phase::Head, c, m.grain, it, q) ==> #[trigger] b1(q) == b2(q),
    ensures
        a1(Place { store: Store::Bests, at: it }) == a2(Place { store: Store::Bests, at: it }),
{
    lemma_views_agree(Phase::Head, c, m.grain, it, v1, b1, v2, b2);
    assert(v1.levels@ =~= v2.levels@) by {
        assert forall|i: int| 0 <= i < v1.levels@.len() implies v1.levels@[i] == v2.levels@[i] by {
            assert(same_at(v1, v2, Place { store: Store::Levels, at: i }));
        }
    }
    assert(v1.scales@ =~= v2.scales@) by {
        assert forall|i: int| 0 <= i < v1.scales@.len() implies v1.scales@[i] == v2.scales@[i] by {
            assert(same_at(v1, v2, Place { store: Store::Scales, at: i }));
        }
    }
    assert(v1.sums@ =~= v2.sums@) by {
        assert forall|i: int| 0 <= i < v1.sums@.len() implies v1.sums@[i] == v2.sums@[i] by {
            assert(same_at(v1, v2, Place { store: Store::Sums, at: i }));
        }
    }
    assert(logits_of(m, blob, v1, run) =~= logits_of(m, blob, v2, run));
}

proof fn lemma_goes_by_reads<S: Analytic>(
    m: Model<S>,
    c: Cfg,
    blob: Seq<u8>,
    t: Turn<S>,
    runs: Seq<(usize, usize)>,
    best: spec_fn(Seq<S>, int) -> u64,
    task: (int, int),
    b1: spec_fn(Place) -> Cell<S>,
    a1: spec_fn(Place) -> Cell<S>,
    b2: spec_fn(Place) -> Cell<S>,
    a2: spec_fn(Place) -> Cell<S>,
    p: Place,
)
    requires
        c.is_sound(),
        is_task(c, m.grain, task),
        leaves(m, c, blob, t, runs, best, task, b1, a1),
        leaves(m, c, blob, t, runs, best, task, b2, a2),
        forall|q: Place| reads_at(c, m.grain, task, q) ==> #[trigger] b1(q) == b2(q),
        writes_at(c, m.grain, t.pos as int, task, p),
    ensures
        a1(p) == a2(p),
{
    let it = task.1;
    let (phase, layer) = step_of(task.0, qwen_layer(), qwen_head(), c.nl as int)->0;
    assert forall|q: Place| qwen_reads(phase, c, m.grain, it, q) implies #[trigger] b1(q) == b2(q) by {
        assert(reads_at(c, m.grain, task, q));
    }
    if phase == Phase::Head {
        let v1 = choose|b: Shared<S>| #[trigger]
            leaves_best(m, c, blob, runs[it], best, it, b1, a1, b);
        let v2 = choose|b: Shared<S>| #[trigger]
            leaves_best(m, c, blob, runs[it], best, it, b2, a2, b);
        lemma_best_by_reads(m, c, blob, runs[it], best, it, b1, a1, b2, a2, v1, v2);
        lemma_head_place(c, m.grain, layer, t.pos as int, it, p);
    } else {
        let spans = qwen_spans(phase, c, m.grain, layer, t.pos as int, it);
        let u = turn_of(t, runs, it);
        let (v1, o1) = choose|b: Shared<S>, out: Seq<Piece<S>>|
            {
                &&& #[trigger] m.is_written(c, blob, phase, layer, u, b, it, out)
                &&& shows(phase, c, m.grain, it, b, b1)
                &&& is_left(b1, a1, spans, out)
            };
        let (v2, o2) = choose|b: Shared<S>, out: Seq<Piece<S>>|
            {
                &&& #[trigger] m.is_written(c, blob, phase, layer, u, b, it, out)
                &&& shows(phase, c, m.grain, it, b, b2)
                &&& is_left(b2, a2, spans, out)
            };
        lemma_views_agree(phase, c, m.grain, it, v1, b1, v2, b2);
        units_read_their_places(m, c, blob, phase, layer, u, it, v1, v2, o2);
        let i = choose|i: int| 0 <= i < spans.len() && #[trigger] spans[i].holds(p);
        lemma_written_once(m, c, blob, phase, layer, u, it, v1, o1, o2, i, p.at - spans[i].at);
    }
}

proof fn lemma_tasks_apart(
    c: Cfg,
    grain: Grain,
    pos: int,
    a: (int, int),
    b: (int, int),
    p: Place,
)
    requires
        c.is_sound(),
        0 <= pos < 4096,
        is_task(c, grain, a),
        is_task(c, grain, b),
        at_once(c, a, b),
        a != b,
        writes_at(c, grain, pos, a, p),
    ensures
        !writes_at(c, grain, pos, b, p),
        !reads_at(c, grain, b, p),
{
    let (ph, hd, nl) = (qwen_layer(), qwen_head(), c.nl as int);
    let (f, la) = step_of(a.0, ph, hd, nl)->0;
    let (g, lb) = step_of(b.0, ph, hd, nl)->0;
    if f == Phase::Rope {
        qwen_turns_in_layers(a.0, nl);
    }
    if g == Phase::Rope {
        qwen_turns_in_layers(b.0, nl);
    }
    qwen_runs_are_written(f, c, grain, la, pos, a.1, p);
    qwen_units_never_meet(c, grain, nl, pos, a.0, b.0, a.1, b.1, p);
    if writes_at(c, grain, pos, b, p) {
        qwen_runs_are_written(g, c, grain, lb, pos, b.1, p);
    }
}

/// Units between which no barrier stands leave the shared buffers with the same
/// contents in whatever order they run, and so whichever workers run them: `one`
/// and `other` are two orders of the same units, and `ones` and `others` what the
/// buffers hold before and after each. The units of one step are such units.
pub proof fn order_changes_nothing<S: Analytic>(
    m: Model<S>,
    c: Cfg,
    blob: Seq<u8>,
    t: Turn<S>,
    runs: Seq<(usize, usize)>,
    best: spec_fn(Seq<S>, int) -> u64,
    one: Seq<(int, int)>,
    ones: Seq<spec_fn(Place) -> Cell<S>>,
    other: Seq<(int, int)>,
    others: Seq<spec_fn(Place) -> Cell<S>>,
)
    requires
        c.is_sound(),
        t.pos < 4096,
        is_course(one, ones, leaving(m, c, blob, t, runs, best)),
        is_course(other, others, leaving(m, c, blob, t, runs, best)),
        one.no_duplicates(),
        other.no_duplicates(),
        forall|x: (int, int)| #[trigger] one.contains(x) <==> other.contains(x),
        forall|x: (int, int)| #[trigger] one.contains(x) ==> is_task(c, m.grain, x),
        forall|x: (int, int), y: (int, int)| #[trigger]
            one.contains(x) && #[trigger] one.contains(y) ==> at_once(c, x, y),
        ones[0] == others[0],
    ensures
        ones.last() == others.last(),
{
    let step = leaving(m, c, blob, t, runs, best);
    let pos = t.pos as int;
    let writes = |x: (int, int), p: Place| writes_at(c, m.grain, pos, x, p);
    let reads = |x: (int, int), p: Place| reads_at(c, m.grain, x, p);
    assert forall|x: (int, int)| #[trigger] one.contains(x) implies keeps_the_rest(x, step, writes) by {
        assert forall|b: spec_fn(Place) -> Cell<S>, a: spec_fn(Place) -> Cell<S>, p: Place|
            #![trigger step(x, b, a), a(p)]
            step(x, b, a) && !writes(x, p) implies a(p) == b(p) by {
            lemma_keeps(m, c, blob, t, runs, best, x, b, a, p);
        }
    }
    assert forall|x: (int, int)| #[trigger] one.contains(x) implies goes_by_its_reads(
        x,
        step,
        writes,
        reads,
    ) by {
        assert forall|
            b1: spec_fn(Place) -> Cell<S>,
            a1: spec_fn(Place) -> Cell<S>,
            b2: spec_fn(Place) -> Cell<S>,
            a2: spec_fn(Place) -> Cell<S>,
            p: Place,
        |
            #![trigger step(x, b1, a1), step(x, b2, a2), a1(p)]
            step(x, b1, a1) && step(x, b2, a2) && (forall|q: Place|
                reads(x, q) ==> #[trigger] b1(q) == b2(q)) && writes(x, p) implies a1(p) == a2(p) by {
            assert forall|q: Place| reads_at(c, m.grain, x, q) implies #[trigger] b1(q) == b2(q) by {
                assert(reads(x, q));
            }
            lemma_goes_by_reads(m, c, blob, t, runs, best, x, b1, a1, b2, a2, p);
        }
    }
    assert forall|x: (int, int), y: (int, int)| #[trigger]
        one.contains(x) && #[trigger] one.contains(y) && x != y implies apart(x, y, writes, reads) by {
        assert forall|p: Place| #[trigger] writes(x, p) implies !writes(y, p) && !reads(y, p) by {
            lemma_tasks_apart(c, m.grain, pos, x, y, p);
        }
    }
    order_is_free(one, ones, other, others, step, writes, reads);
}

/// A step leaves one state: however its units are shared among workers, and in
/// whatever order they run, the shared buffers hold the same after the last one.
pub proof fn step_leaves_one_state<S: Analytic>(
    m: Model<S>,
    c: Cfg,
    blob: Seq<u8>,
    t: Turn<S>,
    runs: Seq<(usize, usize)>,
    best: spec_fn(Seq<S>, int) -> u64,
    k: int,
    one: Seq<(int, int)>,
    ones: Seq<spec_fn(Place) -> Cell<S>>,
    other: Seq<(int, int)>,
    others: Seq<spec_fn(Place) -> Cell<S>>,
)
    requires
        c.is_sound(),
        t.pos < 4096,
        is_course(one, ones, leaving(m, c, blob, t, runs, best)),
        is_course(other, others, leaving(m, c, blob, t, runs, best)),
        one.no_duplicates(),
        other.no_duplicates(),
        forall|x: (int, int)| #[trigger] one.contains(x) <==> x.0 == k && is_task(c, m.grain, x),
        forall|x: (int, int)| #[trigger] other.contains(x) <==> x.0 == k && is_task(c, m.grain, x),
        ones[0] == others[0],
    ensures
        ones.last() == others.last(),
{
    order_changes_nothing(m, c, blob, t, runs, best, one, ones, other, others);
}

// ---------------------------------------------------------------- whole passes

/// Unit `task.1` of step `task.0` of a pass for token `tok` at position `pos` finds the
/// contents `before` and leaves the contents `after`. The experts and their weights are
/// those that the router's numbers among these contents choose; `bits` says what the
/// bits of a number are. Where a worker is one unit of a step, `runs` holds the runs of
/// the workers in that step.
pub open spec fn passes<S: Analytic>(
    m: Model<S>,
    c: Cfg,
    blob: Seq<u8>,
    over: Softmax,
    tok: u32,
    pos: usize,
    bits: spec_fn(S) -> u32,
    runs: spec_fn(int) -> Seq<(usize, usize)>,
    best: spec_fn(Seq<S>, int) -> u64,
    task: (int, int),
    before: spec_fn(Place) -> Cell<S>,
    after: spec_fn(Place) -> Cell<S>,
) -> bool {
    exists|t: Turn<S>|
        {
            &&& #[trigger] leaves(m, c, blob, t, runs(task.0), best, task, before, after)
            &&& t.tok == tok && t.pos == pos
            &&& goes_by_router(c, over, bits, t, task, before)
        }
}

/// Where the unit goes by the chosen experts, they are those that the router's numbers
/// choose.
pub open spec fn goes_by_router<S: Analytic>(
    c: Cfg,
    over: Softmax,
    bits: spec_fn(S) -> u32,
    t: Turn<S>,
    task: (int, int),
    before: spec_fn(Place) -> Cell<S>,
) -> bool {
    match step_of(task.0, qwen_layer(), qwen_head(), c.nl as int) {
        Some((phase, _)) => chooses(phase) ==> is_routed(
            over,
            bits,
            reals_in(before, Store::Router, c.ne as int),
            c.topk as int,
            t.top@,
            t.weights@,
        ),
        None => true,
    }
}

/// What the units of a pass leave of what they find.
pub open spec fn passing<S: Analytic>(
    m: Model<S>,
    c: Cfg,
    blob: Seq<u8>,
    over: Softmax,
    tok: u32,
    pos: usize,
    bits: spec_fn(S) -> u32,
    runs: spec_fn(int) -> Seq<(usize, usize)>,
    best: spec_fn(Seq<S>, int) -> u64,
) -> spec_fn((int, int), spec_fn(Place) -> Cell<S>, spec_fn(Place) -> Cell<S>) -> bool {
    |task: (int, int), before: spec_fn(Place) -> Cell<S>, after: spec_fn(Place) -> Cell<S>|
        passes(m, c, blob, over, tok, pos, bits, runs, best, task, before, after)
}

/// A barrier stands between the steps of two units, of which `a` is the first.
pub open spec fn parted(c: Cfg, a: (int, int), b: (int, int)) -> bool {
    a.0 < b.0 && !at_once(c, a, b)
}

/// The units of a whole pass, each once, in an order in which none runs before a unit
/// that a barrier parts from it has run.
pub open spec fn is_pass(c: Cfg, grain: Grain, tasks: Seq<(int, int)>) -> bool {
    &&& tasks.no_duplicates()
    &&& forall|x: (int, int)| #[trigger] tasks.contains(x) <==> is_task(c, grain, x)
    &&& respects(tasks, |a: (int, int), b: (int, int)| parted(c, a, b))
}

/// A unit leaves the same for turns that have the same experts, where it goes by them.
proof fn lemma_turns<S: Analytic>(
    m: Model<S>,
    c: Cfg,
    blob: Seq<u8>,
    runs: spec_fn(int) -> Seq<(usize, usize)>,
    best: spec_fn(Seq<S>, int) -> u64,
    t: Turn<S>,
    u: Turn<S>,
    task: (int, int),
    before: spec_fn(Place) -> Cell<S>,
    after: spec_fn(Place) -> Cell<S>,
)
    requires
        leaves(m, c, blob, t, runs(task.0), best, task, before, after),
        t.tok == u.tok && t.pos == u.pos,
        match step_of(task.0, qwen_layer(), qwen_head(), c.nl as int) {
            Some((phase, _)) => chooses(phase) ==> t.top@ == u.top@ && t.weights@ == u.weights@,
            None => true,
        },
    ensures
        leaves(m, c, blob, u, runs(task.0), best, task, before, after),
{
    let it = task.1;
    let (phase, layer) = step_of(task.0, qwen_layer(), qwen_head(), c.nl as int)->0;
    if phase != Phase::Head {
        let spans = qwen_spans(phase, c, m.grain, layer, t.pos as int, it);
        let (x, y) = (turn_of(t, runs(task.0), it), turn_of(u, runs(task.0), it));
        let (b, out) = choose|b: Shared<S>, out: Seq<Piece<S>>|
            {
                &&& #[trigger] m.is_written(c, blob, phase, layer, x, b, it, out)
                &&& shows(phase, c, m.grain, it, b, before)
                &&& is_left(before, after, spans, out)
            };
        assert(m.is_written(c, blob, phase, layer, y, b, it, out));
    }
}

proof fn lemma_pass_goes_by_reads<S: Analytic>(
    m: Model<S>,
    c: Cfg,
    blob: Seq<u8>,
    over: Softmax,
    tok: u32,
    pos: usize,
    bits: spec_fn(S) -> u32,
    runs: spec_fn(int) -> Seq<(usize, usize)>,
    best: spec_fn(Seq<S>, int) -> u64,
    task: (int, int),
    b1: spec_fn(Place) -> Cell<S>,
    a1: spec_fn(Place) -> Cell<S>,
    b2: spec_fn(Place) -> Cell<S>,
    a2: spec_fn(Place) -> Cell<S>,
    p: Place,
)
    requires
        c.is_sound(),
        is_task(c, m.grain, task),
        passes(m, c, blob, over, tok, pos, bits, runs, best, task, b1, a1),
        passes(m, c, blob, over, tok, pos, bits, runs, best, task, b2, a2),
        forall|q: Place| reads_at(c, m.grain, task, q) ==> #[trigger] b1(q) == b2(q),
        writes_at(c, m.grain, pos as int, task, p),
    ensures
        a1(p) == a2(p),
{
    let t = choose|t: Turn<S>|
        {
            &&& #[trigger] leaves(m, c, blob, t, runs(task.0), best, task, b1, a1)
            &&& t.tok == tok && t.pos == pos
            &&& goes_by_router(c, over, bits, t, task, b1)
        };
    let u = choose|t: Turn<S>|
        {
            &&& #[trigger] leaves(m, c, blob, t, runs(task.0), best, task, b2, a2)
            &&& t.tok == tok && t.pos == pos
            &&& goes_by_router(c, over, bits, t, task, b2)
        };
    let (phase, _) = step_of(task.0, qwen_layer(), qwen_head(), c.nl as int)->0;
    if chooses(phase) {
        let (x, y) = (
            reals_in(b1, Store::Router, c.ne as int),
            reals_in(b2, Store::Router, c.ne as int),
        );
        assert(x =~= y) by {
            assert forall|e: int| 0 <= e < c.ne implies x[e] == y[e] by {
                let q = Place { store: Store::Router, at: e };
                assert(reads_at(c, m.grain, task, q));
                assert(b1(q) == b2(q));
            }
        }
        routes_are_one(
            over,
            bits,
            x,
            c.topk as int,
            (t.top@, t.weights@),
            (u.top@, u.weights@),
        );
    }
    lemma_turns(m, c, blob, runs, best, u, t, task, b2, a2);
    lemma_goes_by_reads(m, c, blob, t, runs(task.0), best, task, b1, a1, b2, a2, p);
}

/// A pass leaves one state: two orders of all its units that keep the barriers, from
/// the same contents of the shared buffers, end with the same contents. So neither how
/// the units are shared among the workers nor how fast each runs makes a difference to
/// the best tokens, the caches or anything else that a pass leaves.
pub proof fn pass_leaves_one_state<S: Analytic>(
    m: Model<S>,
    c: Cfg,
    blob: Seq<u8>,
    over: Softmax,
    tok: u32,
    pos: usize,
    bits: spec_fn(S) -> u32,
    runs: spec_fn(int) -> Seq<(usize, usize)>,
    best: spec_fn(Seq<S>, int) -> u64,
    courses: Courses<(int, int), S>,
)
    requires
        c.is_sound(),
        pos < 4096,
        is_course(courses.one, courses.ones, passing(m, c, blob, over, tok, pos, bits, runs, best)),
        is_course(courses.other, courses.others, passing(m, c, blob, over, tok, pos, bits, runs, best)),
        is_pass(c, m.grain, courses.one),
        is_pass(c, m.grain, courses.other),
        courses.ones[0] == courses.others[0],
    ensures
        courses.ones.last() == courses.others.last(),
{
    let one = courses.one;
    let step = passing(m, c, blob, over, tok, pos, bits, runs, best);
    let first = |a: (int, int), b: (int, int)| parted(c, a, b);
    let at = pos as int;
    let writes = |x: (int, int), p: Place| writes_at(c, m.grain, at, x, p);
    let reads = |x: (int, int), p: Place| reads_at(c, m.grain, x, p);
    assert forall|x: (int, int)| #[trigger] one.contains(x) implies keeps_the_rest(x, step, writes) by {
        assert forall|b: spec_fn(Place) -> Cell<S>, a: spec_fn(Place) -> Cell<S>, p: Place|
            #![trigger step(x, b, a), a(p)]
            step(x, b, a) && !writes(x, p) implies a(p) == b(p) by {
            let t = choose|t: Turn<S>|
                {
                    &&& #[trigger] leaves(m, c, blob, t, runs(x.0), best, x, b, a)
                    &&& t.tok == tok && t.pos == pos
                    &&& goes_by_router(c, over, bits, t, x, b)
                };
            lemma_keeps(m, c, blob, t, runs(x.0), best, x, b, a, p);
        }
    }
    assert forall|x: (int, int)| #[trigger] one.contains(x) implies goes_by_its_reads(
        x,
        step,
        writes,
        reads,
    ) by {
        assert forall|
            b1: spec_fn(Place) -> Cell<S>,
            a1: spec_fn(Place) -> Cell<S>,
            b2: spec_fn(Place) -> Cell<S>,
            a2: spec_fn(Place) -> Cell<S>,
            p: Place,
        |
            #![trigger step(x, b1, a1), step(x, b2, a2), a1(p)]
            step(x, b1, a1) && step(x, b2, a2) && (forall|q: Place|
                reads(x, q) ==> #[trigger] b1(q) == b2(q)) && writes(x, p) implies a1(p) == a2(p) by {
            assert forall|q: Place| reads_at(c, m.grain, x, q) implies #[trigger] b1(q) == b2(q) by {
                assert(reads(x, q));
            }
            lemma_pass_goes_by_reads(m, c, blob, over, tok, pos, bits, runs, best, x, b1, a1, b2, a2, p);
        }
    }
    assert forall|x: (int, int), y: (int, int)| #[trigger]
        one.contains(x) && #[trigger] one.contains(y) && x != y implies settled(
        x,
        y,
        writes,
        reads,
        first,
    ) by {
        if !first(x, y) && !first(y, x) {
            assert(at_once(c, x, y)) by {
                if x.0 == y.0 {
                    assert(x.0 <= y.0);
                }
            }
            assert forall|p: Place| #[trigger] writes(x, p) implies !writes(y, p) && !reads(y, p) by {
                lemma_tasks_apart(c, m.grain, at, x, y, p);
            }
        }
    }
    orders_agree(courses, step, writes, reads, first);
}

} // verus!
