//! The steps of a forward pass of the model with an attention window leave the
//! shared buffers with the same contents whichever workers run their items, and in
//! whatever order.
use crate::access::{
    gptoss_items_never_meet, gptoss_reads, gptoss_runs_are_written, gptoss_spans, held, unparted,
    Place, Span, Store,
};
use crate::analytic::Analytic;
use crate::config::Cfg;
use crate::gptoss_pass::{agree, items_read_their_places, same_at, Model, Shared, Turn};
use crate::order::{
    apart, chooses, goes_by_its_reads, is_course, is_left, items_are_undisturbed, keeps_the_rest,
    level_in, order_is_free, orders_agree, real_in, reals_in, respects, rewrites, settled,
    unwritten_places_stay, Courses,
};
use crate::piece::{Cell, Piece};
use crate::sampling::{is_routed, routes_are_one, Softmax};
use crate::schedule::{
    gptoss_head, gptoss_items_of, gptoss_layer, gptoss_syncs, gptoss_turns_in_layers, step_of,
    Phase,
};
use vstd::prelude::*;

verus! {

/// What a view of the shared buffers holds at a place, where it has it.
pub open spec fn seen<S: Analytic>(b: Shared<S>, p: Place) -> Option<Cell<S>> {
    match p.store {
        Store::Stream => real_in(b.stream@, p.at),
        Store::Normed => real_in(b.normed@, p.at),
        Store::Levels => level_in(b.levels@, p.at),
        Store::Scales => real_in(b.scales@, p.at),
        Store::Queries => real_in(b.queries@, p.at),
        Store::Values => real_in(b.values@, p.at),
        Store::KeyCache => real_in(b.key_cache@, p.at),
        Store::ValueCache => real_in(b.value_cache@, p.at),
        Store::MixedLevels => level_in(b.mixed_levels@, p.at),
        Store::MixedScales => real_in(b.mixed_scales@, p.at),
        Store::Hidden => real_in(b.hidden@, p.at),
        Store::HiddenLevels => level_in(b.hidden_levels@, p.at),
        Store::HiddenScales => real_in(b.hidden_scales@, p.at),
        _ => None,
    }
}

/// Place `j` of the run that item `it` of a phase rewrites.
pub open spec fn own_place(phase: Phase, c: Cfg, it: int, j: int) -> Place {
    let hd = c.hd as int;
    match phase {
        Phase::Rope => if it < c.nh {
            Place { store: Store::Queries, at: it * hd + j }
        } else {
            Place { store: Store::Keys, at: (it - c.nh) * hd + j }
        },
        Phase::Down => Place { store: Store::Stream, at: 4 * it + j },
        _ => Place { store: Store::Stream, at: it + j },
    }
}

/// The view `b` shows item `it` of a phase what the buffers hold, wherever the item
/// reads.
pub open spec fn shows<S: Analytic>(
    phase: Phase,
    c: Cfg,
    it: int,
    b: Shared<S>,
    mem: spec_fn(Place) -> Cell<S>,
) -> bool {
    &&& b.serves(phase, c, it)
    &&& forall|p: Place|
        gptoss_reads(phase, c, it, p) ==> (#[trigger] seen(b, p) matches Some(v) ==> mem(p) == v)
    &&& rewrites(phase) ==> forall|j: int|
        0 <= j < b.own@.len() ==> Cell::Real(#[trigger] b.own@[j]) == mem(
            own_place(phase, c, it, j),
        )
}

/// Item `task.1` of step `task.0` of a pass finds the contents `before` and leaves
/// the contents `after`.
pub open spec fn leaves<S: Analytic>(
    m: Model<S>,
    c: Cfg,
    blob: Seq<u8>,
    want: bool,
    t: Turn<S>,
    task: (int, int),
    before: spec_fn(Place) -> Cell<S>,
    after: spec_fn(Place) -> Cell<S>,
) -> bool {
    match step_of(task.0, gptoss_layer(), gptoss_head(want), c.nl as int) {
        Some((phase, layer)) => exists|b: Shared<S>, out: Seq<Piece<S>>|
            {
                &&& #[trigger] m.is_written(c, blob, phase, layer, t, b, task.1, out)
                &&& shows(phase, c, task.1, b, before)
                &&& is_left(
                    before,
                    after,
                    gptoss_spans(phase, c, layer, t.pos as int, task.1),
                    out,
                )
            },
        None => false,
    }
}

/// What the items of a pass leave of what they find.
pub open spec fn leaving<S: Analytic>(
    m: Model<S>,
    c: Cfg,
    blob: Seq<u8>,
    want: bool,
    t: Turn<S>,
) -> spec_fn((int, int), spec_fn(Place) -> Cell<S>, spec_fn(Place) -> Cell<S>) -> bool {
    |task: (int, int), before: spec_fn(Place) -> Cell<S>, after: spec_fn(Place) -> Cell<S>|
        leaves(m, c, blob, want, t, task, before, after)
}

/// The item is one of a step of a pass.
pub open spec fn is_task(c: Cfg, want: bool, task: (int, int)) -> bool {
    &&& 0 <= task.0
    &&& match step_of(task.0, gptoss_layer(), gptoss_head(want), c.nl as int) {
        Some((phase, _)) => 0 <= task.1 < gptoss_items_of(phase, c),
        None => false,
    }
}

/// No barrier stands between the steps of two items.
pub open spec fn at_once(c: Cfg, want: bool, a: (int, int), b: (int, int)) -> bool {
    let (layer, head, nl) = (gptoss_layer(), gptoss_head(want), c.nl as int);
    ||| unparted(a.0, b.0, layer, head, nl, |f: Phase| gptoss_syncs(f))
    ||| unparted(b.0, a.0, layer, head, nl, |f: Phase| gptoss_syncs(f))
}

/// The place is in a run that the item writes.
spec fn writes_at(c: Cfg, want: bool, pos: int, task: (int, int), p: Place) -> bool {
    match step_of(task.0, gptoss_layer(), gptoss_head(want), c.nl as int) {
        Some((phase, layer)) => held(gptoss_spans(phase, c, layer, pos, task.1), p),
        None => false,
    }
}

/// The item reads the place.
spec fn reads_at(c: Cfg, want: bool, task: (int, int), p: Place) -> bool {
    match step_of(task.0, gptoss_layer(), gptoss_head(want), c.nl as int) {
        Some((phase, _)) => gptoss_reads(phase, c, task.1, p),
        None => false,
    }
}

/// Views of contents that agree on what an item reads agree for the item.
proof fn lemma_views_agree<S: Analytic>(
    phase: Phase,
    c: Cfg,
    it: int,
    a: Shared<S>,
    m: spec_fn(Place) -> Cell<S>,
    b: Shared<S>,
    n: spec_fn(Place) -> Cell<S>,
)
    requires
        shows(phase, c, it, a, m),
        shows(phase, c, it, b, n),
        forall|p: Place| gptoss_reads(phase, c, it, p) ==> #[trigger] m(p) == n(p),
    ensures
        agree(phase, c, it, a, b),
{
    assert forall|p: Place| gptoss_reads(phase, c, it, p) implies #[trigger] same_at(a, b, p) by {
        assert(m(p) == n(p));
        assert(seen(a, p) matches Some(v) ==> m(p) == v);
        assert(seen(b, p) matches Some(v) ==> n(p) == v);
    }
    if rewrites(phase) {
        assert(a.own@ =~= b.own@) by {
            assert(a.own@.len() == b.own@.len());
            assert forall|j: int| 0 <= j < a.own@.len() implies a.own@[j] == b.own@[j] by {
                let p = own_place(phase, c, it, j);
                assert(gptoss_reads(phase, c, it, p));
                assert(m(p) == n(p));
                assert(Cell::Real(a.own@[j]) == m(p));
                assert(Cell::Real(b.own@[j]) == n(p));
            }
        }
    }
}

/// What an item writes is determined by what it sees.
proof fn lemma_written_once<S: Analytic>(
    m: Model<S>,
    c: Cfg,
    blob: Seq<u8>,
    phase: Phase,
    layer: int,
    t: Turn<S>,
    it: int,
    b: Shared<S>,
    x: Seq<Piece<S>>,
    y: Seq<Piece<S>>,
    i: int,
    j: int,
)
    requires
        m.is_written(c, blob, phase, layer, t, b, it, x),
        m.is_written(c, blob, phase, layer, t, b, it, y),
        0 <= i < gptoss_spans(phase, c, layer, t.pos as int, it).len(),
    ensures
        x[i].cell(j) == y[i].cell(j),
{
    assert(i == 0 || i == 1 || i == 2);
}

proof fn lemma_keeps<S: Analytic>(
    m: Model<S>,
    c: Cfg,
    blob: Seq<u8>,
    want: bool,
    t: Turn<S>,
    task: (int, int),
    before: spec_fn(Place) -> Cell<S>,
    after: spec_fn(Place) -> Cell<S>,
    p: Place,
)
    requires
        leaves(m, c, blob, want, t, task, before, after),
        !writes_at(c, want, t.pos as int, task, p),
    ensures
        after(p) == before(p),
{
}

proof fn lemma_goes_by_reads<S: Analytic>(
    m: Model<S>,
    c: Cfg,
    blob: Seq<u8>,
    want: bool,
    t: Turn<S>,
    task: (int, int),
    b1: spec_fn(Place) -> Cell<S>,
    a1: spec_fn(Place) -> Cell<S>,
    b2: spec_fn(Place) -> Cell<S>,
    a2: spec_fn(Place) -> Cell<S>,
    p: Place,
)
    requires
        c.is_sound(),
        c.is_gptoss(),
        is_task(c, want, task),
        leaves(m, c, blob, want, t, task, b1, a1),
        leaves(m, c, blob, want, t, task, b2, a2),
        forall|q: Place| reads_at(c, want, task, q) ==> #[trigger] b1(q) == b2(q),
        writes_at(c, want, t.pos as int, task, p),
    ensures
        a1(p) == a2(p),
{
    let it = task.1;
    let (phase, layer) = step_of(task.0, gptoss_layer(), gptoss_head(want), c.nl as int)->0;
    let spans = gptoss_spans(phase, c, layer, t.pos as int, it);
    let (v1, o1) = choose|b: Shared<S>, out: Seq<Piece<S>>|
        {
            &&& #[trigger] m.is_written(c, blob, phase, layer, t, b, it, out)
            &&& shows(phase, c, it, b, b1)
            &&& is_left(b1, a1, spans, out)
        };
    let (v2, o2) = choose|b: Shared<S>, out: Seq<Piece<S>>|
        {
            &&& #[trigger] m.is_written(c, blob, phase, layer, t, b, it, out)
            &&& shows(phase, c, it, b, b2)
            &&& is_left(b2, a2, spans, out)
        };
    assert forall|q: Place| gptoss_reads(phase, c, it, q) implies #[trigger] b1(q) == b2(q) by {
        assert(reads_at(c, want, task, q));
    }
    lemma_views_agree(phase, c, it, v1, b1, v2, b2);
    items_read_their_places(m, c, blob, phase, layer, t, it, v1, v2, o2);
    let i = choose|i: int| 0 <= i < spans.len() && #[trigger] spans[i].holds(p);
    lemma_written_once(m, c, blob, phase, layer, t, it, v1, o1, o2, i, p.at - spans[i].at);
}

proof fn lemma_tasks_apart(c: Cfg, want: bool, pos: int, a: (int, int), b: (int, int), p: Place)
    requires
        c.is_sound(),
        0 <= pos < 4096,
        is_task(c, want, a),
        is_task(c, want, b),
        at_once(c, want, a, b),
        a != b,
        writes_at(c, want, pos, a, p),
    ensures
        !writes_at(c, want, pos, b, p),
        !reads_at(c, want, b, p),
{
    let (ph, hd, nl) = (gptoss_layer(), gptoss_head(want), c.nl as int);
    let (f, la) = step_of(a.0, ph, hd, nl)->0;
    let (g, lb) = step_of(b.0, ph, hd, nl)->0;
    if f == Phase::Rope {
        gptoss_turns_in_layers(a.0, want, nl);
    }
    if g == Phase::Rope {
        gptoss_turns_in_layers(b.0, want, nl);
    }
    gptoss_runs_are_written(f, c, la, pos, a.1, p);
    gptoss_items_never_meet(c, nl, want, pos, a.0, b.0, a.1, b.1, p);
    if writes_at(c, want, pos, b, p) {
        gptoss_runs_are_written(g, c, lb, pos, b.1, p);
    }
}

/// Items between which no barrier stands leave the shared buffers with the same
/// contents in whatever order they run, and so whichever workers run them: `one`
/// and `other` are two orders of the same items, and `ones` and `others` what the
/// buffers hold before and after each. The items of one step are such items.
pub proof fn order_changes_nothing<S: Analytic>(
    m: Model<S>,
    c: Cfg,
    blob: Seq<u8>,
    want: bool,
    t: Turn<S>,
    one: Seq<(int, int)>,
    ones: Seq<spec_fn(Place) -> Cell<S>>,
    other: Seq<(int, int)>,
    others: Seq<spec_fn(Place) -> Cell<S>>,
)
    requires
        c.is_sound(),
        c.is_gptoss(),
        t.fits(c),
        is_course(one, ones, leaving(m, c, blob, want, t)),
        is_course(other, others, leaving(m, c, blob, want, t)),
        one.no_duplicates(),
        other.no_duplicates(),
        forall|x: (int, int)| #[trigger] one.contains(x) <==> other.contains(x),
        forall|x: (int, int)| #[trigger] one.contains(x) ==> is_task(c, want, x),
        forall|x: (int, int), y: (int, int)| #[trigger]
            one.contains(x) && #[trigger] one.contains(y) ==> at_once(c, want, x, y),
        ones[0] == others[0],
    ensures
        ones.last() == others.last(),
{
    let step = leaving(m, c, blob, want, t);
    let pos = t.pos as int;
    let writes = |x: (int, int), p: Place| writes_at(c, want, pos, x, p);
    let reads = |x: (int, int), p: Place| reads_at(c, want, x, p);
    assert forall|x: (int, int)| #[trigger] one.contains(x) implies keeps_the_rest(x, step, writes) by {
        assert forall|b: spec_fn(Place) -> Cell<S>, a: spec_fn(Place) -> Cell<S>, p: Place|
            #![trigger step(x, b, a), a(p)]
            step(x, b, a) && !writes(x, p) implies a(p) == b(p) by {
            lemma_keeps(m, c, blob, want, t, x, b, a, p);
        }
    }
    assert forall|x: (int, int)| #[trigger] one.contains(x) implies goes_by_its_reads(
        x,
        step,
        writes,
        reads,
    ) by {
        assert forall|
            b1: spec_fn(Place) -> Cell<S>,
            a1: spec_fn(Place) -> Cell<S>,
            b2: spec_fn(Place) -> Cell<S>,
            a2: spec_fn(Place) -> Cell<S>,
            p: Place,
        |
            #![trigger step(x, b1, a1), step(x, b2, a2), a1(p)]
            step(x, b1, a1) && step(x, b2, a2) && (forall|q: Place|
                reads(x, q) ==> #[trigger] b1(q) == b2(q)) && writes(x, p) implies a1(p) == a2(p) by {
            assert forall|q: Place| reads_at(c, want, x, q) implies #[trigger] b1(q) == b2(q) by {
                assert(reads(x, q));
            }
            lemma_goes_by_reads(m, c, blob, want, t, x, b1, a1, b2, a2, p);
        }
    }
    assert forall|x: (int, int), y: (int, int)| #[trigger]
        one.contains(x) && #[trigger] one.contains(y) && x != y implies apart(x, y, writes, reads) by {
        assert forall|p: Place| #[trigger] writes(x, p) implies !writes(y, p) && !reads(y, p) by {
            lemma_tasks_apart(c, want, pos, x, y, p);
        }
    }
    order_is_free(one, ones, other, others, step, writes, reads);
}

/// A step leaves one state: however its items are shared among workers, and in
/// whatever order they run, the shared buffers hold the same after the last one.
pub proof fn step_leaves_one_state<S: Analytic>(
    m: Model<S>,
    c: Cfg,
    blob: Seq<u8>,
    want: bool,
    t: Turn<S>,
    k: int,
    one: Seq<(int, int)>,
    ones: Seq<spec_fn(Place) -> Cell<S>>,
    other: Seq<(int, int)>,
    others: Seq<spec_fn(Place) -> Cell<S>>,
)
    requires
        c.is_sound(),
        c.is_gptoss(),
        t.fits(c),
        is_course(one, ones, leaving(m, c, blob, want, t)),
        is_course(other, others, leaving(m, c, blob, want, t)),
        one.no_duplicates(),
        other.no_duplicates(),
        forall|x: (int, int)| #[trigger] one.contains(x) <==> x.0 == k && is_task(c, want, x),
        forall|x: (int, int)| #[trigger] other.contains(x) <==> x.0 == k && is_task(c, want, x),
        ones[0] == others[0],
    ensures
        ones.last() == others.last(),
{
    order_changes_nothing(m, c, blob, want, t, one, ones, other, others);
}

/// The items of one step, each once.
pub open spec fn is_step_of(c: Cfg, want: bool, k: int, tasks: Seq<(int, int)>) -> bool {
    &&& tasks.no_duplicates()
    &&& forall|x: (int, int)| #[trigger] tasks.contains(x) <==> x.0 == k && is_task(c, want, x)
}

/// The step leaves in the buffers what its items write from what the buffers held before
/// the step: item `it` has seen them through a view `b`, and what it has written stands
/// in its runs.
pub proof fn step_leaves_what_items_write<S: Analytic>(
    m: Model<S>,
    c: Cfg,
    blob: Seq<u8>,
    want: bool,
    t: Turn<S>,
    k: int,
    tasks: Seq<(int, int)>,
    mems: Seq<spec_fn(Place) -> Cell<S>>,
    it: int,
)
    requires
        c.is_sound(),
        c.is_gptoss(),
        t.fits(c),
        is_course(tasks, mems, leaving(m, c, blob, want, t)),
        is_step_of(c, want, k, tasks),
        is_task(c, want, (k, it)),
    ensures
        step_of(k, gptoss_layer(), gptoss_head(want), c.nl as int) matches Some((phase, layer))
            && exists|b: Shared<S>, out: Seq<Piece<S>>|
            {
                &&& #[trigger] m.is_written(c, blob, phase, layer, t, b, it, out)
                &&& shows(phase, c, it, b, mems[0])
                &&& stands(
                    mems.last(),
                    gptoss_spans(phase, c, layer, t.pos as int, it),
                    out,
                )
            },
{
    let step = leaving(m, c, blob, want, t);
    let pos = t.pos as int;
    let writes = |x: (int, int), p: Place| writes_at(c, want, pos, x, p);
    let reads = |x: (int, int), p: Place| reads_at(c, want, x, p);
    lemma_step_keeps(m, c, blob, want, t, tasks);
    assert forall|x: (int, int), y: (int, int)| #[trigger]
        tasks.contains(x) && #[trigger] tasks.contains(y) && x != y implies apart(
        x,
        y,
        writes,
        reads,
    ) by {
        assert forall|p: Place| #[trigger] writes(x, p) implies !writes(y, p) && !reads(y, p) by {
            lemma_tasks_apart(c, want, pos, x, y, p);
        }
    }
    let task = (k, it);
    assert(tasks.contains(task));
    let i = tasks.index_of(task);
    assert(tasks[i] == task);
    items_are_undisturbed(tasks, mems, step, writes, reads, i);
    let (phase, layer) = step_of(k, gptoss_layer(), gptoss_head(want), c.nl as int)->0;
    let spans = gptoss_spans(phase, c, layer, pos, it);
    assert(step(tasks[i], mems[i], mems[i + 1]));
    let (b, out) = choose|b: Shared<S>, out: Seq<Piece<S>>|
        {
            &&& #[trigger] m.is_written(c, blob, phase, layer, t, b, it, out)
            &&& shows(phase, c, it, b, mems[i])
            &&& is_left(mems[i], mems[i + 1], spans, out)
        };
    assert(shows(phase, c, it, b, mems[0])) by {
        assert forall|p: Place| gptoss_reads(phase, c, it, p) implies (#[trigger] seen(
            b,
            p,
        ) matches Some(v) ==> mems[0](p) == v) by {
            assert(reads(task, p));
            assert(mems[i](p) == mems[0](p));
        }
        if rewrites(phase) {
            assert forall|j: int| 0 <= j < b.own@.len() implies Cell::Real(#[trigger] b.own@[j])
                == mems[0](own_place(phase, c, it, j)) by {
                let p = own_place(phase, c, it, j);
                assert(gptoss_reads(phase, c, it, p));
                assert(reads(task, p));
                assert(mems[i](p) == mems[0](p));
            }
        }
    }
    assert(stands(mems.last(), spans, out)) by {
        assert forall|n: int, p: Place|
            0 <= n < spans.len() && #[trigger] spans[n].holds(p) implies mems.last()(p)
            == out[n].cell(p.at - spans[n].at) by {
            assert(writes(task, p));
            assert(mems[i + 1](p) == mems.last()(p));
        }
    }
}

/// What an item has written stands in its runs.
pub open spec fn stands<S>(
    mem: spec_fn(Place) -> Cell<S>,
    spans: Seq<Span>,
    out: Seq<Piece<S>>,
) -> bool {
    forall|n: int, p: Place|
        0 <= n < spans.len() && #[trigger] spans[n].holds(p) ==> mem(p) == out[n].cell(
            p.at - spans[n].at,
        )
}

/// The items of a step change what they write alone.
proof fn lemma_step_keeps<S: Analytic>(
    m: Model<S>,
    c: Cfg,
    blob: Seq<u8>,
    want: bool,
    t: Turn<S>,
    tasks: Seq<(int, int)>,
)
    ensures
        forall|x: (int, int)| #[trigger]
            tasks.contains(x) ==> keeps_the_rest(
                x,
                leaving(m, c, blob, want, t),
                |x: (int, int), p: Place| writes_at(c, want, t.pos as int, x, p),
            ),
{
    let step = leaving(m, c, blob, want, t);
    let writes = |x: (int, int), p: Place| writes_at(c, want, t.pos as int, x, p);
    assert forall|x: (int, int)| #[trigger] tasks.contains(x) implies keeps_the_rest(
        x,
        step,
        writes,
    ) by {
        assert forall|b: spec_fn(Place) -> Cell<S>, a: spec_fn(Place) -> Cell<S>, p: Place|
            #![trigger step(x, b, a), a(p)]
            step(x, b, a) && !writes(x, p) implies a(p) == b(p) by {
            lemma_keeps(m, c, blob, want, t, x, b, a, p);
        }
    }
}

/// A step leaves alone the places that none of its items writes.
pub proof fn step_leaves_the_rest<S: Analytic>(
    m: Model<S>,
    c: Cfg,
    blob: Seq<u8>,
    want: bool,
    t: Turn<S>,
    k: int,
    tasks: Seq<(int, int)>,
    mems: Seq<spec_fn(Place) -> Cell<S>>,
    p: Place,
)
    requires
        is_course(tasks, mems, leaving(m, c, blob, want, t)),
        is_step_of(c, want, k, tasks),
        step_of(k, gptoss_layer(), gptoss_head(want), c.nl as int) matches Some((phase, layer))
            && forall|it: int|
            0 <= it < gptoss_items_of(phase, c) ==> !held(
                #[trigger] gptoss_spans(phase, c, layer, t.pos as int, it),
                p,
            ),
    ensures
        mems.last()(p) == mems[0](p),
{
    let step = leaving(m, c, blob, want, t);
    let writes = |x: (int, int), p: Place| writes_at(c, want, t.pos as int, x, p);
    lemma_step_keeps(m, c, blob, want, t, tasks);
    assert forall|x: (int, int)| #[trigger] tasks.contains(x) implies !writes(x, p) by {}
    unwritten_places_stay(tasks, mems, step, writes, p);
}

// ---------------------------------------------------------------- whole passes

/// Item `task.1` of step `task.0` of a pass for token `tok` at position `pos` finds the
/// contents `before` and leaves the contents `after`. The experts and their weights are
/// those that the router's numbers among these contents choose; `bits` says what the
/// bits of a number are.
pub open spec fn passes<S: Analytic>(
    m: Model<S>,
    c: Cfg,
    blob: Seq<u8>,
    want: bool,
    tok: u32,
    pos: usize,
    bits: spec_fn(S) -> u32,
    task: (int, int),
    before: spec_fn(Place) -> Cell<S>,
    after: spec_fn(Place) -> Cell<S>,
) -> bool {
    exists|t: Turn<S>|
        {
            &&& #[trigger] leaves(m, c, blob, want, t, task, before, after)
            &&& t.tok == tok && t.pos == pos
            &&& goes_by_router(c, want, bits, t, task, before)
        }
}

/// Where the item goes by the chosen experts, they are those that the router's numbers
/// choose.
pub open spec fn goes_by_router<S: Analytic>(
    c: Cfg,
    want: bool,
    bits: spec_fn(S) -> u32,
    t: Turn<S>,
    task: (int, int),
    before: spec_fn(Place) -> Cell<S>,
) -> bool {
    match step_of(task.0, gptoss_layer(), gptoss_head(want), c.nl as int) {
        Some((phase, _)) => chooses(phase) ==> is_routed(
            Softmax::Chosen,
            bits,
            reals_in(before, Store::Router, c.ne as int),
            c.topk as int,
            t.top@,
            t.weights@,
        ),
        None => true,
    }
}

/// What the items of a pass leave of what they find.
pub open spec fn passing<S: Analytic>(
    m: Model<S>,
    c: Cfg,
    blob: Seq<u8>,
    want: bool,
    tok: u32,
    pos: usize,
    bits: spec_fn(S) -> u32,
) -> spec_fn((int, int), spec_fn(Place) -> Cell<S>, spec_fn(Place) -> Cell<S>) -> bool {
    |task: (int, int), before: spec_fn(Place) -> Cell<S>, after: spec_fn(Place) -> Cell<S>|
        passes(m, c, blob, want, tok, pos, bits, task, before, after)
}

/// A barrier stands between the steps of two items, of which `a` is the first.
pub open spec fn parted(c: Cfg, want: bool, a: (int, int), b: (int, int)) -> bool {
    a.0 < b.0 && !at_once(c, want, a, b)
}

/// The items of a whole pass, each once, in an order in which none runs before an item
/// that a barrier parts from it has run.
pub open spec fn is_pass(c: Cfg, want: bool, tasks: Seq<(int, int)>) -> bool {
    &&& tasks.no_duplicates()
    &&& forall|x: (int, int)| #[trigger] tasks.contains(x) <==> is_task(c, want, x)
    &&& respects(tasks, |a: (int, int), b: (int, int)| parted(c, want, a, b))
}

/// An item leaves the same for turns that have the same experts, where it goes by them.
proof fn lemma_turns<S: Analytic>(
    m: Model<S>,
    c: Cfg,
    blob: Seq<u8>,
    want: bool,
    t: Turn<S>,
    u: Turn<S>,
    task: (int, int),
    before: spec_fn(Place) -> Cell<S>,
    after: spec_fn(Place) -> Cell<S>,
)
    requires
        leaves(m, c, blob, want, t, task, before, after),
        t.tok == u.tok && t.pos == u.pos,
        match step_of(task.0, gptoss_layer(), gptoss_head(want), c.nl as int) {
            Some((phase, _)) => chooses(phase) ==> t.top@ == u.top@ && t.weights@ == u.weights@,
            None => true,
        },
    ensures
        leaves(m, c, blob, want, u, task, before, after),
{
    let it = task.1;
    let (phase, layer) = step_of(task.0, gptoss_layer(), gptoss_head(want), c.nl as int)->0;
    let spans = gptoss_spans(phase, c, layer, t.pos as int, it);
    let (b, out) = choose|b: Shared<S>, out: Seq<Piece<S>>|
        {
            &&& #[trigger] m.is_written(c, blob, phase, layer, t, b, it, out)
            &&& shows(phase, c, it, b, before)
            &&& is_left(before, after, spans, out)
        };
    assert(m.is_written(c, blob, phase, layer, u, b, it, out));
}

proof fn lemma_pass_goes_by_reads<S: Analytic>(
    m: Model<S>,
    c: Cfg,
    blob: Seq<u8>,
    want: bool,
    tok: u32,
    pos: usize,
    bits: spec_fn(S) -> u32,
    task: (int, int),
    b1: spec_fn(Place) -> Cell<S>,
    a1: spec_fn(Place) -> Cell<S>,
    b2: spec_fn(Place) -> Cell<S>,
    a2: spec_fn(Place) -> Cell<S>,
    p: Place,
)
    requires
        c.is_sound(),
        c.is_gptoss(),
        is_task(c, want, task),
        passes(m, c, blob, want, tok, pos, bits, task, b1, a1),
        passes(m, c, blob, want, tok, pos, bits, task, b2, a2),
        forall|q: Place| reads_at(c, want, task, q) ==> #[trigger] b1(q) == b2(q),
        writes_at(c, want, pos as int, task, p),
    ensures
        a1(p) == a2(p),
{
    let t = choose|t: Turn<S>|
        {
            &&& #[trigger] leaves(m, c, blob, want, t, task, b1, a1)
            &&& t.tok == tok && t.pos == pos
            &&& goes_by_router(c, want, bits, t, task, b1)
        };
    let u = choose|t: Turn<S>|
        {
            &&& #[trigger] leaves(m, c, blob, want, t, task, b2, a2)
            &&& t.tok == tok && t.pos == pos
            &&& goes_by_router(c, want, bits, t, task, b2)
        };
    let (phase, _) = step_of(task.0, gptoss_layer(), gptoss_head(want), c.nl as int)->0;
    if chooses(phase) {
        let (x, y) = (
            reals_in(b1, Store::Router, c.ne as int),
            reals_in(b2, Store::Router, c.ne as int),
        );
        assert(x =~= y) by {
            assert forall|e: int| 0 <= e < c.ne implies x[e] == y[e] by {
                let q = Place { store: Store::Router, at: e };
                assert(reads_at(c, want, task, q));
                assert(b1(q) == b2(q));
            }
        }
        routes_are_one(
            Softmax::Chosen,
            bits,
            x,
            c.topk as int,
            (t.top@, t.weights@),
            (u.top@, u.weights@),
        );
    }
    lemma_turns(m, c, blob, want, u, t, task, b2, a2);
    lemma_goes_by_reads(m, c, blob, want, t, task, b1, a1, b2, a2, p);
}

/// A pass leaves one state: two orders of all its items that keep the barriers, from
/// the same contents of the shared buffers, end with the same contents. So neither the
/// number of workers, nor how the items are shared among them, nor how fast each runs
/// makes a difference to the logits, the caches or anything else that a pass leaves.
pub proof fn pass_leaves_one_state<S: Analytic>(
    m: Model<S>,
    c: Cfg,
    blob: Seq<u8>,
    want: bool,
    tok: u32,
    pos: usize,
    bits: spec_fn(S) -> u32,
    courses: Courses<(int, int), S>,
)
    requires
        c.is_sound(),
        c.is_gptoss(),
        pos < 4096,
        is_course(courses.one, courses.ones, passing(m, c, blob, want, tok, pos, bits)),
        is_course(courses.other, courses.others, passing(m, c, blob, want, tok, pos, bits)),
        is_pass(c, want, courses.one),
        is_pass(c, want, courses.other),
        courses.ones[0] == courses.others[0],
    ensures
        courses.ones.last() == courses.others.last(),
{
    let one = courses.one;
    let step = passing(m, c, blob, want, tok, pos, bits);
    let first = |a: (int, int), b: (int, int)| parted(c, want, a, b);
    let at = pos as int;
    let writes = |x: (int, int), p: Place| writes_at(c, want, at, x, p);
    let reads = |x: (int, int), p: Place| reads_at(c, want, x, p);
    assert forall|x: (int, int)| #[trigger] one.contains(x) implies keeps_the_rest(x, step, writes) by {
        assert forall|b: spec_fn(Place) -> Cell<S>, a: spec_fn(Place) -> Cell<S>, p: Place|
            #![trigger step(x, b, a), a(p)]
            step(x, b, a) && !writes(x, p) implies a(p) == b(p) by {
            let t = choose|t: Turn<S>|
                {
                    &&& #[trigger] leaves(m, c, blob, want, t, x, b, a)
                    &&& t.tok == tok && t.pos == pos
                    &&& goes_by_router(c, want, bits, t, x, b)
                };
            lemma_keeps(m, c, blob, want, t, x, b, a, p);
        }
    }
    assert forall|x: (int, int)| #[trigger] one.contains(x) implies goes_by_its_reads(
        x,
        step,
        writes,
        reads,
    ) by {
        assert forall|
            b1: spec_fn(Place) -> Cell<S>,
            a1: spec_fn(Place) -> Cell<S>,
            b2: spec_fn(Place) -> Cell<S>,
            a2: spec_fn(Place) -> Cell<S>,
            p: Place,
        |
            #![trigger step(x, b1, a1), step(x, b2, a2), a1(p)]
            step(x, b1, a1) && step(x, b2, a2) && (forall|q: Place|
                reads(x, q) ==> #[trigger] b1(q) == b2(q)) && writes(x, p) implies a1(p) == a2(p) by {
            assert forall|q: Place| reads_at(c, want, x, q) implies #[trigger] b1(q) == b2(q) by {
                assert(reads(x, q));
            }
            lemma_pass_goes_by_reads(m, c, blob, want, tok, pos, bits, x, b1, a1, b2, a2, p);
        }
    }
    assert forall|x: (int, int), y: (int, int)| #[trigger]
        one.contains(x) && #[trigger] one.contains(y) && x != y implies settled(
        x,
        y,
        writes,
        reads,
        first,
    ) by {
        if !first(x, y) && !first(y, x) {
            assert(at_once(c, want, x, y)) by {
                if x.0 == y.0 {
                    assert(x.0 <= y.0);
                }
            }
            assert forall|p: Place| #[trigger] writes(x, p) implies !writes(y, p) && !reads(y, p) by {
                lemma_tasks_apart(c, want, at, x, y, p);
            }
        }
    }
    orders_agree(courses, step, writes, reads, first);
}

} // verus!
