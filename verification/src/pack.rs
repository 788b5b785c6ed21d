//! Packing of matrix blocks into panels: runs of `w` rows (or columns) are laid
//! out step by step along the summed dimension, so that a kernel reads `w`
//! neighbours at a time.
use crate::arith::lemma_div_mod_of;
use crate::partition::div_up;
use crate::scalar::Scalar;
use vstd::arithmetic::div_mod::{lemma_fundamental_div_mod, lemma_mod_bound};
use vstd::prelude::*;

verus! {

/// What stands in panel `q`, step `p`, lane `r`: the element of line `q * w + r`
/// and step `p`, or zero beyond the last of `count` lines. Lines are `line`
/// elements apart in the source, steps are `step` apart.
pub open spec fn lane<T: Scalar>(
    src: Seq<T>,
    line: int,
    step: int,
    count: int,
    w: int,
    q: int,
    p: int,
    r: int,
) -> T {
    if q * w + r < count {
        src[(q * w + r) * line + p * step]
    } else {
        T::zero_spec()
    }
}

/// Index `x` of the packed block belongs to a panel that is filled, and to one of
/// its `kb` steps. Panels are `ps` elements apart.
pub open spec fn in_panel(count: int, kb: int, w: int, ps: int, x: int) -> bool {
    (x / ps) * w < count && (x % ps) / w < kb
}

/// `out` holds `count` lines of `kb` steps packed by `w`; whatever lies outside
/// the panels is as it was.
pub open spec fn is_packed<T: Scalar>(
    out: Seq<T>,
    before: Seq<T>,
    src: Seq<T>,
    line: int,
    step: int,
    count: int,
    kb: int,
    w: int,
    ps: int,
) -> bool {
    &&& out.len() == before.len()
    &&& forall|x: int|
        0 <= x < out.len() ==> #[trigger] out[x] == if in_panel(count, kb, w, ps, x) {
            lane(src, line, step, count, w, x / ps, (x % ps) / w, (x % ps) % w)
        } else {
            before[x]
        }
}

/// The same, up to index `cur`.
spec fn packed_to<T: Scalar>(
    out: Seq<T>,
    before: Seq<T>,
    src: Seq<T>,
    line: int,
    step: int,
    count: int,
    kb: int,
    w: int,
    ps: int,
    cur: int,
) -> bool {
    &&& out.len() == before.len()
    &&& forall|x: int|
        0 <= x < out.len() ==> #[trigger] out[x] == if x < cur && in_panel(count, kb, w, ps, x) {
            lane(src, line, step, count, w, x / ps, (x % ps) / w, (x % ps) % w)
        } else {
            before[x]
        }
}

/// The panel, step and lane of index `q * ps + p * w + r`.
pub proof fn lemma_slot(q: int, p: int, r: int, kb: int, w: int, ps: int)
    requires
        0 <= q,
        0 <= p < kb,
        0 <= r < w,
        kb * w <= ps,
    ensures
        ({
            let x = q * ps + (p * w + r);
            &&& x / ps == q
            &&& x % ps == p * w + r
            &&& (x % ps) / w == p
            &&& (x % ps) % w == r
        }),
        0 <= p * w,
        p * w + r < kb * w,
        0 <= q * ps,
{
    assert(0 <= p * w && p * w + r < kb * w) by (nonlinear_arith)
        requires
            0 <= p,
            p + 1 <= kb,
            0 <= r < w,
    ;
    lemma_div_mod_of(q, ps, p * w + r);
    lemma_div_mod_of(p, w, r);
    assert(0 <= q * ps) by (nonlinear_arith)
        requires
            0 <= q,
            0 <= ps,
    ;
}

/// Between the last step of panel `q` and the next panel nothing is filled.
proof fn lemma_gap(count: int, kb: int, w: int, ps: int, q: int, x: int)
    requires
        0 <= q,
        0 < w,
        0 <= kb,
        kb * w <= ps,
        0 < ps,
        q * ps + kb * w <= x < (q + 1) * ps,
    ensures
        !in_panel(count, kb, w, ps, x),
{
    let d = x - q * ps;
    assert((q + 1) * ps == q * ps + ps) by (nonlinear_arith);
    assert(0 <= kb * w) by (nonlinear_arith)
        requires
            0 <= kb,
            0 < w,
    ;
    lemma_div_mod_of(q, ps, d);
    lemma_fundamental_div_mod(d, w);
    lemma_mod_bound(d, w);
    assert(d / w >= kb) by (nonlinear_arith)
        requires
            d >= kb * w,
            d == w * (d / w) + d % w,
            0 <= d % w < w,
    ;
}

/// What a packing reads of the source is there, and what it writes fits.
pub open spec fn packable(
    src: int,
    out: int,
    line: int,
    step: int,
    count: int,
    kb: int,
    w: int,
    ps: int,
) -> bool {
    &&& count > 0 && kb > 0 ==> (count - 1) * line + (kb - 1) * step < src
    &&& forall|q: int| 0 <= q && #[trigger] (q * w) < count && kb > 0 ==> q * ps + kb * w <= out
}

/// Packs one panel: lines `q * w .. q * w + w`.
fn pack_panel<T: Scalar>(
    src: &[T],
    line: usize,
    step: usize,
    count: usize,
    kb: usize,
    w: usize,
    ps: usize,
    out: &mut [T],
    q: usize,
    Ghost(before): Ghost<Seq<T>>,
)
    requires
        0 < w,
        kb * w <= ps,
        q * w < count,
        packable(
            src.len() as int,
            old(out).len() as int,
            line as int,
            step as int,
            count as int,
            kb as int,
            w as int,
            ps as int,
        ),
        packed_to(
            old(out)@,
            before,
            src@,
            line as int,
            step as int,
            count as int,
            kb as int,
            w as int,
            ps as int,
            q * ps,
        ),
    ensures
        packed_to(
            final(out)@,
            before,
            src@,
            line as int,
            step as int,
            count as int,
            kb as int,
            w as int,
            ps as int,
            q * ps + kb * w,
        ),
{
    assert(out@.len() == out.len());
    assert(src@.len() == src.len());
    assert(0 * w == 0 && q * ps + 0 == q * ps);
    for p in 0..kb
        invariant
            0 < w,
            kb * w <= ps,
            q * w < count,
            out@.len() == out.len(),
            src@.len() == src.len(),
            packable(
                src@.len() as int,
                out@.len() as int,
                line as int,
                step as int,
                count as int,
                kb as int,
                w as int,
                ps as int,
            ),
            packed_to(
                out@,
                before,
                src@,
                line as int,
                step as int,
                count as int,
                kb as int,
                w as int,
                ps as int,
                q * ps + p * w,
            ),
    {
        proof {
            lemma_slot(q as int, p as int, 0, kb as int, w as int, ps as int);
            assert(q * w < count);
        }
        let base: usize = q * ps + p * w;
        for r in 0..w
            invariant
                0 < w,
                p < kb,
                kb * w <= ps,
                q * w < count,
                base == q * ps + p * w,
                out@.len() == out.len(),
                src@.len() == src.len(),
                packable(
                    src@.len() as int,
                    out@.len() as int,
                    line as int,
                    step as int,
                    count as int,
                    kb as int,
                    w as int,
                    ps as int,
                ),
                packed_to(
                    out@,
                    before,
                    src@,
                    line as int,
                    step as int,
                    count as int,
                    kb as int,
                    w as int,
                    ps as int,
                    base + r,
                ),
        {
            proof {
                lemma_slot(q as int, p as int, r as int, kb as int, w as int, ps as int);
                assert(q * w < count);
                assert(q * ps + kb * w <= out@.len());
                assert(base + r == q * ps + (p * w + r));
            }
            let left: usize = count - q * w;
            let v: T = if r < left {
                let i: usize = q * w + r;
                proof {
                    assert(0 <= i * line <= (count - 1) * line && 0 <= p * step <= (kb - 1) * step)
                        by (nonlinear_arith)
                        requires
                            0 <= i <= count - 1,
                            0 <= line,
                            0 <= p <= kb - 1,
                            0 <= step,
                    ;
                }
                src[i * line + p * step]
            } else {
                T::zero()
            };
            out[base + r] = v;
        }
        assert((p + 1) * w == p * w + w) by (nonlinear_arith);
    }
}

/// Packs `count` lines of `kb` steps by `w`, in panels `ps` elements apart.
pub fn pack_panels<T: Scalar>(
    src: &[T],
    line: usize,
    step: usize,
    count: usize,
    kb: usize,
    w: usize,
    ps: usize,
    out: &mut [T],
)
    requires
        0 < w,
        0 < ps,
        kb * w <= ps,
        packable(
            src.len() as int,
            old(out).len() as int,
            line as int,
            step as int,
            count as int,
            kb as int,
            w as int,
            ps as int,
        ),
    ensures
        is_packed(
            final(out)@,
            old(out)@,
            src@,
            line as int,
            step as int,
            count as int,
            kb as int,
            w as int,
            ps as int,
        ),
{
    let ghost before = out@;
    let panels: usize = div_up(count, w);
    assert(0 * ps == 0);
    for q in 0..panels
        invariant
            0 < w,
            0 < ps,
            kb * w <= ps,
            panels * w < count + w,
            before == old(out)@,
            out@.len() == before.len(),
            packable(
                src.len() as int,
                old(out).len() as int,
                line as int,
                step as int,
                count as int,
                kb as int,
                w as int,
                ps as int,
            ),
            packed_to(
                out@,
                before,
                src@,
                line as int,
                step as int,
                count as int,
                kb as int,
                w as int,
                ps as int,
                q * ps,
            ),
    {
        assert(q * w < count) by (nonlinear_arith)
            requires
                q + 1 <= panels,
                panels * w < count + w,
                0 < w,
        ;
        pack_panel(src, line, step, count, kb, w, ps, out, q, Ghost(before));
        proof {
            assert forall|x: int| q * ps + kb * w <= x < (q + 1) * ps implies !in_panel(
                count as int,
                kb as int,
                w as int,
                ps as int,
                x,
            ) by {
                lemma_gap(count as int, kb as int, w as int, ps as int, q as int, x);
            }
            assert((q + 1) * ps >= q * ps + kb * w) by (nonlinear_arith)
                requires
                    kb * w <= ps,
            ;
        }
    }
    proof {
        let q = panels as int;
        assert forall|x: int| 0 <= x && x >= q * ps implies !in_panel(
            count as int,
            kb as int,
            w as int,
            ps as int,
            x,
        ) by {
            lemma_fundamental_div_mod(x, ps as int);
            lemma_mod_bound(x, ps as int);
            let y = x / (ps as int);
            assert(y >= q) by (nonlinear_arith)
                requires
                    x >= q * ps,
                    x == ps * y + x % (ps as int),
                    0 <= x % (ps as int) < ps,
                    ps > 0,
            ;
            assert(y * w >= q * w) by (nonlinear_arith)
                requires
                    y >= q,
                    w > 0,
            ;
        }
    }
}

} // verus!
