//! What a worker does at a step of a pass: what it settles before its units of work,
//! which units are its own, what they leave, and whether it then waits for the others.
use crate::access::qwen_units_of;
use crate::config::Cfg;
use crate::even::NT;
use crate::kmat::Grain;
use crate::order::chooses;
use crate::partition::{between_cuts, ceil_div, chunk, lemma_ceil_div, lemma_cuts_cover, run_start};
use crate::schedule::{
    gptoss_barrier, gptoss_head, gptoss_layer, gptoss_syncs, qwen_barrier, qwen_head,
    qwen_items_of, qwen_layer, qwen_syncs, step_of, Phase,
};
use vstd::prelude::*;

verus! {

/// What a worker settles before its units of a step.
#[derive(Clone, Copy, Debug, PartialEq, Eq, Structural)]
pub enum Before {
    Nothing,
    /// Which experts the router's numbers choose, and their weights.
    Choose,
    /// The next token.
    Pick,
}

/// What a worker does at a step: it settles what comes before, does its units
/// `from .. to`, and waits for the others where the step ends at a barrier. Where `best`
/// is set, its one unit leaves the best token of its run in place of pieces of buffers.
#[derive(Clone, Copy, Debug, PartialEq, Eq, Structural)]
pub struct Work {
    pub before: Before,
    pub from: usize,
    pub to: usize,
    pub best: bool,
    pub waits: bool,
}

/// What worker `wid` settles before its units: all choose the experts, and the first
/// alone picks the token.
pub open spec fn before_of(phase: Phase, wid: int) -> Before {
    if phase == Phase::GateUp {
        Before::Choose
    } else if phase == Phase::Pick && wid == 0 {
        Before::Pick
    } else {
        Before::Nothing
    }
}

/// What worker `wid` settles before its units.
fn before(phase: Phase, wid: usize) -> (r: Before)
    ensures
        r == before_of(phase, wid as int),
{
    match phase {
        Phase::GateUp => Before::Choose,
        Phase::Pick => if wid == 0 {
            Before::Pick
        } else {
            Before::Nothing
        },
        _ => Before::Nothing,
    }
}

/// A step of the model with an attention window, for a worker with the run of items
/// `run`.
pub fn gptoss_work(phase: Phase, wid: usize, run: (usize, usize)) -> (w: Work)
    ensures
        w.before == before_of(phase, wid as int),
        (w.from, w.to) == run,
        !w.best,
        w.waits == gptoss_syncs(phase),
{
    Work {
        before: before(phase, wid),
        from: run.0,
        to: run.1,
        best: false,
        waits: gptoss_barrier(phase),
    }
}

/// The phases in which a worker is one unit: it sums up or compares its whole run.
pub open spec fn is_one_unit(phase: Phase) -> bool {
    phase == Phase::AttnSquares || phase == Phase::FfnSquares || phase == Phase::HeadSquares
        || phase == Phase::Head
}

/// The units of worker `wid`, whose run of items is `run`.
pub open spec fn own_units(phase: Phase, wid: int, run: (int, int)) -> (int, int) {
    if is_one_unit(phase) {
        (wid, wid + 1)
    } else {
        run
    }
}

/// A step of the model with normalized heads, for a worker with the run of items `run`.
pub fn qwen_work(phase: Phase, wid: usize, run: (usize, usize)) -> (w: Work)
    requires
        wid < NT,
    ensures
        w.before == before_of(phase, wid as int),
        (w.from as int, w.to as int) == own_units(
            phase,
            wid as int,
            (run.0 as int, run.1 as int),
        ),
        w.best == (phase == Phase::Head),
        w.waits == qwen_syncs(phase),
{
    let one: bool = match phase {
        Phase::AttnSquares | Phase::FfnSquares | Phase::HeadSquares | Phase::Head => true,
        _ => false,
    };
    let best: bool = match phase {
        Phase::Head => true,
        _ => false,
    };
    let (from, to): (usize, usize) = if one {
        (wid, wid + 1)
    } else {
        run
    };
    Work { before: before(phase, wid), from, to, best, waits: qwen_barrier(phase) }
}

/// Where the run of worker `wid` of a pool starts: items go to the workers in equal
/// chunks, but the squares of a norm are summed by the first worker alone, in one go.
pub open spec fn pool_cut(phase: Phase, items: int, workers: int, wid: int) -> int {
    if is_one_unit(phase) && phase != Phase::Head {
        if wid <= 0 {
            0
        } else {
            items
        }
    } else {
        run_start(items, ceil_div(items, workers), wid)
    }
}

/// The run of worker `wid` of a pool.
pub fn pool_run(phase: Phase, items: usize, workers: usize, wid: usize) -> (r: (usize, usize))
    requires
        wid < workers,
    ensures
        r.0 == pool_cut(phase, items as int, workers as int, wid as int),
        r.1 == pool_cut(phase, items as int, workers as int, wid + 1),
        r.0 <= r.1 <= items,
{
    let first_alone: bool = match phase {
        Phase::AttnSquares | Phase::FfnSquares | Phase::HeadSquares => true,
        _ => false,
    };
    if first_alone {
        if wid == 0 {
            (0, items)
        } else {
            (items, items)
        }
    } else {
        match chunk(items, workers, wid) {
            Some(run) => run,
            None => {
                proof {
                    let size = ceil_div(items as int, workers as int);
                    lemma_ceil_div(items as int, workers as int);
                    assert((wid + 1) * size >= wid * size) by (nonlinear_arith)
                        requires
                            0 <= size,
                    ;
                }
                (items, items)
            },
        }
    }
}

// ------------------------------------------------------------------------ laws

/// The runs of a pool's workers rise from the first item to the last.
pub proof fn pool_runs_rise(phase: Phase, items: int, workers: int, wid: int)
    requires
        0 <= items,
        0 <= wid < workers,
    ensures
        pool_cut(phase, items, workers, 0) == 0,
        pool_cut(phase, items, workers, workers) == items,
        pool_cut(phase, items, workers, wid) <= pool_cut(phase, items, workers, wid + 1),
{
    let size = ceil_div(items, workers);
    lemma_ceil_div(items, workers);
    assert(0 * size == 0);
    assert(size * workers == workers * size) by (nonlinear_arith);
    assert((wid + 1) * size == wid * size + size) by (nonlinear_arith);
}

/// Every unit of a step of the model with normalized heads is done, and by one worker
/// alone, however the items are cut into runs.
pub proof fn units_are_done_once(
    phase: Phase,
    c: Cfg,
    grain: Grain,
    cut: spec_fn(int) -> int,
    u: int,
) -> (wid: int)
    requires
        cut(0) == 0,
        cut(12) == qwen_items_of(phase, c, grain),
        forall|w: int| 0 <= w < 12 ==> #[trigger] cut(w) <= cut(w + 1),
        0 <= u < qwen_units_of(phase, c, grain),
    ensures
        0 <= wid < 12,
        ({
            let own = own_units(phase, wid, (cut(wid), cut(wid + 1)));
            own.0 <= u < own.1
        }),
        forall|v: int|
            0 <= v < 12 && ({
                let own = #[trigger] own_units(phase, v, (cut(v), cut(v + 1)));
                own.0 <= u < own.1
            }) ==> v == wid,
{
    if is_one_unit(phase) {
        u
    } else {
        let w = lemma_cuts_cover(cut, 12, qwen_items_of(phase, c, grain), u);
        assert forall|v: int|
            0 <= v < 12 && ({
                let own = #[trigger] own_units(phase, v, (cut(v), cut(v + 1)));
                own.0 <= u < own.1
            }) implies v == w by {
            assert(between_cuts(cut, v, u));
        }
        w
    }
}

/// The experts are chosen in the layer that they serve, after the router's step and
/// before they are used: each step that goes by them has a step of its layer at or
/// before it at which the workers choose, and the router's step stands right before.
pub proof fn experts_are_chosen_first(k: int, want: bool, nl: int, wid: int) -> (j: int)
    requires
        0 <= k,
        0 <= nl,
        step_of(k, gptoss_layer(), gptoss_head(want), nl) matches Some((phase, _)) && chooses(phase),
    ensures
        0 < j <= k,
        step_of(k, gptoss_layer(), gptoss_head(want), nl) matches Some((_, layer)) && step_of(
            j,
            gptoss_layer(),
            gptoss_head(want),
            nl,
        ) == Some((Phase::GateUp, layer)) && step_of(
            j - 1,
            gptoss_layer(),
            gptoss_head(want),
            nl,
        ) == Some((Phase::Route, layer)),
        before_of(Phase::GateUp, wid) == Before::Choose,
{
    let (ph, hd) = (gptoss_layer(), gptoss_head(want));
    assert(ph.len() == 12);
    assert(nl * ph.len() == 12 * nl);
    let (phase, layer) = step_of(k, ph, hd, nl)->0;
    let n = k - 1;
    if n >= 12 * nl {
        assert(hd[n - 12 * nl] != Phase::GateUp && hd[n - 12 * nl] != Phase::Down);
    }
    assert(n % 12 == 9 || n % 12 == 11);
    if n % 12 == 9 {
        assert((n - 1) % 12 == 8 && (n - 1) / 12 == n / 12);
        k
    } else {
        assert((n - 2) % 12 == 9 && (n - 2) / 12 == n / 12);
        assert((n - 3) % 12 == 8 && (n - 3) / 12 == n / 12);
        k - 2
    }
}

/// The same of the model with normalized heads.
pub proof fn experts_are_chosen_first_in_qwen(k: int, nl: int, wid: int) -> (j: int)
    requires
        0 <= k,
        0 <= nl,
        step_of(k, qwen_layer(), qwen_head(), nl) matches Some((phase, _)) && chooses(phase),
    ensures
        0 < j <= k,
        step_of(k, qwen_layer(), qwen_head(), nl) matches Some((_, layer)) && step_of(
            j,
            qwen_layer(),
            qwen_head(),
            nl,
        ) == Some((Phase::GateUp, layer)) && step_of(j - 1, qwen_layer(), qwen_head(), nl) == Some(
            (Phase::Route, layer),
        ),
        before_of(Phase::GateUp, wid) == Before::Choose,
{
    let (ph, hd) = (qwen_layer(), qwen_head());
    assert(ph.len() == 15);
    assert(nl * ph.len() == 15 * nl);
    let (phase, layer) = step_of(k, ph, hd, nl)->0;
    let n = k - 1;
    if n >= 15 * nl {
        assert(hd[n - 15 * nl] != Phase::GateUp && hd[n - 15 * nl] != Phase::Down);
    }
    assert(n % 15 == 12 || n % 15 == 14);
    if n % 15 == 12 {
        assert((n - 1) % 15 == 11 && (n - 1) / 15 == n / 15);
        k
    } else {
        assert((n - 2) % 15 == 12 && (n - 2) / 15 == n / 15);
        assert((n - 3) % 15 == 11 && (n - 3) / 15 == n / 15);
        k - 2
    }
}

} // verus!
