//! Weighted slices: the first twelve workers run on fast cores and get five
//! units of work each, every further worker runs on a slow core and gets two.
use crate::partition::{between_cuts, lemma_cuts_cover, lemma_scaled_cut};
use vstd::arithmetic::div_mod::{lemma_fundamental_div_mod, lemma_mod_bound};
use vstd::prelude::*;

verus! {

/// Workers on fast cores.
pub const NP: usize = 12;

/// Units of a worker on a slow core; one on a fast core has five.
pub const EW: u64 = 2;

/// The number of workers: as many as are asked for, within 1 and 32, or twelve.
pub fn worker_count(asked: Option<usize>) -> (n: usize)
    ensures
        n == match asked {
            None => 12int,
            Some(a) => if a < 1 {
                1int
            } else if a > 32 {
                32int
            } else {
                a as int
            },
        },
{
    match asked {
        None => 12,
        Some(a) => if a < 1 {
            1
        } else if a > 32 {
            32
        } else {
            a
        },
    }
}

/// The number of threads that prepare the weights: at least twelve.
pub fn load_workers(workers: usize) -> (n: usize)
    ensures
        n == if workers < NP {
            NP
        } else {
            workers
        },
{
    if workers < NP {
        NP
    } else {
        workers
    }
}

/// Units of all workers before `wid`.
pub open spec fn units_before(wid: int) -> int {
    if wid <= 12 {
        5 * wid
    } else {
        60 + 2 * (wid - 12)
    }
}

/// The first unit and the number of units of worker `wid`.
pub fn wunits(wid: usize) -> (r: (u64, u64))
    requires
        wid <= 0x3fff_ffff_ffff_ffff,
    ensures
        r.0 == units_before(wid as int),
        r.0 + r.1 == units_before(wid + 1),
{
    if wid < NP {
        (wid as u64 * 5, 5)
    } else {
        (NP as u64 * 5 + (wid - NP) as u64 * EW, EW)
    }
}

/// Units of `workers` workers together.
pub fn total_units(workers: usize) -> (r: u64)
    requires
        workers <= 0x3fff_ffff_ffff_ffff,
    ensures
        r == units_before(workers as int),
{
    if workers <= NP {
        workers as u64 * 5
    } else {
        NP as u64 * 5 + (workers - NP) as u64 * EW
    }
}

/// Where the slice of `n` items starts that belongs to worker `wid`.
pub open spec fn slice_start(wid: int, n: int, workers: int) -> int {
    n * units_before(wid) / units_before(workers)
}

/// The slice of `n` items of worker `wid`, as start and end. A worker beyond the
/// last has the last one's slice.
pub fn sl(wid: usize, n: usize, workers: usize) -> (r: (usize, usize))
    requires
        0 < workers <= 0x3fff_ffff_ffff_ffff,
        n * units_before(workers as int) <= u64::MAX,
    ensures
        ({
            let w = if wid < workers {
                wid as int
            } else {
                workers - 1
            };
            &&& r.0 == slice_start(w, n as int, workers as int)
            &&& r.1 == slice_start(w + 1, n as int, workers as int)
        }),
{
    let tu: u64 = total_units(workers);
    let w: usize = if wid < workers {
        wid
    } else {
        workers - 1
    };
    let (su, width) = wunits(w);
    proof {
        lemma_scaled_cut(n as int, su as int, su + width, tu as int);
        assert(n * su <= n * tu && n * (su + width) <= n * tu) by (nonlinear_arith)
            requires
                0 <= su <= su + width <= tu,
                0 <= n,
        ;
    }
    let a: usize = (n as u64 * su / tu) as usize;
    let b: usize = (n as u64 * (su + width) / tu) as usize;
    (a, b)
}

/// The slices are a partition: they start at 0 and end at `n`, and each item is
/// in exactly one of them.
pub proof fn slices_cover(n: int, workers: int, i: int) -> (w: int)
    requires
        0 <= i < n,
        0 < workers,
    ensures
        slice_start(0, n, workers) == 0,
        slice_start(workers, n, workers) == n,
        0 <= w < workers,
        slice_start(w, n, workers) <= i < slice_start(w + 1, n, workers),
        forall|u: int|
            0 <= u < workers && #[trigger] slice_start(u, n, workers) <= i < slice_start(
                u + 1,
                n,
                workers,
            ) ==> u == w,
{
    let cut = |w: int| slice_start(w, n, workers);
    let tu = units_before(workers);
    assert forall|u: int| 0 <= u < workers implies #[trigger] cut(u) <= cut(u + 1) by {
        lemma_scaled_cut(n, units_before(u), units_before(u + 1), tu);
    }
    lemma_scaled_cut(n, 0, tu, tu);
    let w = lemma_cuts_cover(cut, workers, n, i);
    assert forall|u: int|
        0 <= u < workers && #[trigger] slice_start(u, n, workers) <= i < slice_start(
            u + 1,
            n,
            workers,
        ) implies u == w by {
        assert(between_cuts(cut, u, i));
    }
    w
}

/// A worker on a fast core has five units, one on a slow core two, and nothing else counts.
pub proof fn workers_have_their_units(wid: int)
    requires
        0 <= wid,
    ensures
        units_before(0) == 0,
        wid < 12 ==> units_before(wid + 1) == units_before(wid) + 5,
        12 <= wid ==> units_before(wid + 1) == units_before(wid) + 2,
{
}

/// The slice of a worker is in proportion to its units: the number of its items times all
/// units differs from all items times its own units by less than all units.
pub proof fn slices_are_weighted(wid: int, n: int, workers: int)
    requires
        0 <= wid < workers,
        0 <= n,
    ensures
        ({
            let all = units_before(workers);
            let own = if wid < 12 {
                5int
            } else {
                2
            };
            let len = slice_start(wid + 1, n, workers) - slice_start(wid, n, workers);
            -all < len * all - n * own < all
        }),
{
    let all = units_before(workers);
    let (a, b) = (units_before(wid), units_before(wid + 1));
    let (p, q) = (n * a, n * b);
    lemma_fundamental_div_mod(p, all);
    lemma_fundamental_div_mod(q, all);
    lemma_mod_bound(p, all);
    lemma_mod_bound(q, all);
    let (x, y) = (p / all, q / all);
    assert((y - x) * all == all * y - all * x) by (nonlinear_arith);
    assert(n * (b - a) == q - p) by (nonlinear_arith)
        requires
            p == n * a,
            q == n * b,
    ;
}

} // verus!
