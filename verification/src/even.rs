//! Even slices: twelve workers, whose shares differ by at most one item.
use crate::partition::{between_cuts, lemma_cuts_cover};
use vstd::prelude::*;

verus! {

/// Number of workers.
pub const NT: usize = 12;

/// Where worker `wid`'s slice of `n` items starts.
pub open spec fn slice_start(wid: int, n: int) -> int {
    wid * (n / 12) + if wid < n % 12 {
        wid
    } else {
        n % 12
    }
}

/// Worker `wid`'s slice of `n` items, as start and end.
pub fn sl(wid: usize, n: usize) -> (r: (usize, usize))
    requires
        slice_start(wid + 1, n as int) <= usize::MAX,
    ensures
        r.0 == slice_start(wid as int, n as int),
        r.1 == slice_start(wid + 1, n as int),
{
    let base: usize = n / NT;
    let rem: usize = n % NT;
    proof {
        assert((wid + 1) * base == wid * base + base) by (nonlinear_arith);
        assert(wid * base >= 0) by (nonlinear_arith)
            requires
                0 <= wid,
                0 <= base,
        ;
    }
    let a: usize = wid * base + if wid < rem {
        wid
    } else {
        rem
    };
    let sz: usize = base + if wid < rem {
        1
    } else {
        0
    };
    (a, a + sz)
}

/// Each of the twelve workers has a slice within the items, whatever their
/// number.
pub proof fn slices_fit(wid: int, n: int)
    requires
        0 <= wid < 12,
        0 <= n,
    ensures
        0 <= slice_start(wid, n) <= slice_start(wid + 1, n) <= n,
{
    let base = n / 12;
    assert((wid + 1) * base == wid * base + base) by (nonlinear_arith);
    assert(0 <= wid * base && (wid + 1) * base <= 12 * base) by (nonlinear_arith)
        requires
            0 <= wid < 12,
            0 <= base,
    ;
}

/// The slices are balanced: worker `w` has the whole part of a twelfth of the
/// items, and one more where it is among the first `n % 12`. So an earlier
/// worker has as many items as a later one, or one more, and none is without where
/// there are twelve.
pub proof fn slices_are_balanced(v: int, w: int, n: int)
    requires
        0 <= v <= w < 12,
        0 <= n,
    ensures
        slice_start(w + 1, n) - slice_start(w, n) == n / 12 + if w < n % 12 {
            1int
        } else {
            0int
        },
        slice_start(w + 1, n) - slice_start(w, n) <= slice_start(v + 1, n) - slice_start(v, n)
            <= slice_start(w + 1, n) - slice_start(w, n) + 1,
        n >= 12 ==> slice_start(w, n) < slice_start(w + 1, n),
{
    let base = n / 12;
    assert((w + 1) * base == w * base + base) by (nonlinear_arith);
    assert((v + 1) * base == v * base + base) by (nonlinear_arith);
}

/// The twelve slices are a partition: they start at 0 and end at `n`, each item
/// is in exactly one of them, and no slice is longer than another by more than
/// one item.
pub proof fn slices_cover(n: int, i: int) -> (w: int)
    requires
        0 <= i < n,
    ensures
        slice_start(0, n) == 0,
        slice_start(12, n) == n,
        0 <= w < 12,
        slice_start(w, n) <= i < slice_start(w + 1, n),
        forall|u: int|
            0 <= u < 12 && #[trigger] slice_start(u, n) <= i < slice_start(u + 1, n) ==> u == w,
        forall|u: int|
            0 <= u < 12 ==> n / 12 <= slice_start(u + 1, n) - #[trigger] slice_start(u, n) <= n / 12
                + 1,
{
    let cut = |w: int| slice_start(w, n);
    let base = n / 12;
    assert forall|u: int| 0 <= u < 12 implies n / 12 <= slice_start(u + 1, n)
        - #[trigger] slice_start(u, n) <= n / 12 + 1 by {
        assert((u + 1) * base == u * base + base) by (nonlinear_arith);
    }
    assert forall|u: int| 0 <= u < 12 implies #[trigger] cut(u) <= cut(u + 1) by {
        assert(n / 12 <= slice_start(u + 1, n) - slice_start(u, n));
    }
    assert(0 * base == 0);
    let w = lemma_cuts_cover(cut, 12, n, i);
    assert forall|u: int|
        0 <= u < 12 && #[trigger] slice_start(u, n) <= i < slice_start(u + 1, n) implies u == w by {
        assert(between_cuts(cut, u, i));
    }
    w
}

} // verus!
