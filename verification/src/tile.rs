//! The tile kernel: a square tile of a matrix grows by the product of two packed
//! panels, as a sum of outer products.
use crate::arith::lemma_div_mod_of;
use crate::scalar::Scalar;
use vstd::arithmetic::div_mod::{lemma_fundamental_div_mod, lemma_mod_bound};
use vstd::prelude::*;

verus! {

/// Cell `r`, `s` of the accumulator tile after `p` outer products of panels that
/// start at `ao` and `bo` and have `w` lanes.
pub open spec fn panel_fma<T: Scalar>(
    ap: Seq<T>,
    ao: int,
    bp: Seq<T>,
    bo: int,
    w: int,
    r: int,
    s: int,
    p: int,
) -> T
    decreases p,
{
    if p <= 0 {
        T::zero_spec()
    } else {
        panel_fma(ap, ao, bp, bo, w, r, s, p - 1).fma_spec(
            ap[ao + (p - 1) * w + r],
            bp[bo + (p - 1) * w + s],
        )
    }
}

/// Index `x` of a matrix with `n` columns lies in the `w` by `w` tile whose first
/// cell is in row `i0` and column `j0`.
pub open spec fn in_tile(i0: int, j0: int, w: int, n: int, x: int) -> bool {
    i0 <= x / n < i0 + w && j0 <= x % n < j0 + w
}

/// Row and column of a cell of a square that is stored by rows.
proof fn lemma_cell(x: int, w: int)
    requires
        0 < w,
        0 <= x < w * w,
    ensures
        0 <= x / w < w,
        0 <= x % w < w,
        x == (x / w) * w + x % w,
{
    lemma_fundamental_div_mod(x, w);
    lemma_mod_bound(x, w);
    let q = x / w;
    assert(w * q == q * w) by (nonlinear_arith);
    assert(q < w) by (nonlinear_arith)
        requires
            q * w <= x,
            x < w * w,
            0 < w,
    ;
    assert(0 <= q) by (nonlinear_arith)
        requires
            q * w + w > x,
            x >= 0,
            0 < w,
    ;
}

/// One outer product: each cell of the `w` by `w` tile grows by the product of
/// its row's lane of `a` and its column's lane of `b`.
pub fn outer_step<T: Scalar>(za: &mut Vec<T>, w: usize, a: &[T], ao: usize, b: &[T], bo: usize)
    requires
        0 < w,
        old(za)@.len() == w * w,
        ao + w <= a.len(),
        bo + w <= b.len(),
    ensures
        final(za)@.len() == old(za)@.len(),
        forall|x: int|
            0 <= x < old(za)@.len() ==> #[trigger] final(za)@[x] == old(za)@[x].fma_spec(
                a@[ao + x / w as int],
                b@[bo + x % w as int],
            ),
{
    let cells: usize = za.len();
    for x in 0..cells
        invariant
            0 < w,
            cells == w * w,
            old(za)@.len() == w * w,
            ao + w <= a.len(),
            bo + w <= b.len(),
            za@.len() == old(za)@.len(),
            forall|y: int|
                0 <= y < za@.len() ==> #[trigger] za@[y] == if y < x {
                    old(za)@[y].fma_spec(a@[ao + y / w as int], b@[bo + y % w as int])
                } else {
                    old(za)@[y]
                },
    {
        proof {
            lemma_cell(x as int, w as int);
        }
        let v: T = za[x].fma(a[ao + x / w], b[bo + x % w]);
        za[x] = v;
    }
}

/// `count` outer products in a row, from step `p0` on.
fn outer_steps<T: Scalar>(
    za: &mut Vec<T>,
    w: usize,
    ap: &[T],
    ao: usize,
    bp: &[T],
    bo: usize,
    p0: usize,
    count: usize,
)
    requires
        0 < w,
        old(za)@.len() == w * w,
        ao + (p0 + count) * w <= ap.len(),
        bo + (p0 + count) * w <= bp.len(),
        forall|x: int|
            0 <= x < old(za)@.len() ==> #[trigger] old(za)@[x] == panel_fma(
                ap@,
                ao as int,
                bp@,
                bo as int,
                w as int,
                x / w as int,
                x % w as int,
                p0 as int,
            ),
    ensures
        final(za)@.len() == w * w,
        forall|x: int|
            0 <= x < final(za)@.len() ==> #[trigger] final(za)@[x] == panel_fma(
                ap@,
                ao as int,
                bp@,
                bo as int,
                w as int,
                x / w as int,
                x % w as int,
                p0 + count,
            ),
{
    for i in 0..count
        invariant
            0 < w,
            za@.len() == w * w,
            ao + (p0 + count) * w <= ap.len(),
            bo + (p0 + count) * w <= bp.len(),
            forall|x: int|
                0 <= x < za@.len() ==> #[trigger] za@[x] == panel_fma(
                    ap@,
                    ao as int,
                    bp@,
                    bo as int,
                    w as int,
                    x / w as int,
                    x % w as int,
                    p0 + i,
                ),
    {
        let ghost before = za@;
        proof {
            assert((p0 + i) * w + w <= (p0 + count) * w && 0 <= (p0 + i) * w) by (nonlinear_arith)
                requires
                    p0 + i + 1 <= p0 + count,
                    0 <= p0 + i,
                    0 < w,
            ;
            assert(ap@.len() == ap.len());
            assert(p0 + i <= (p0 + i) * w) by (nonlinear_arith)
                requires
                    0 <= p0 + i,
                    1 <= w,
            ;
        }
        let off: usize = (p0 + i) * w;
        outer_step(za, w, ap, ao + off, bp, bo + off);
        assert forall|x: int| 0 <= x < za@.len() implies #[trigger] za@[x] == panel_fma(
            ap@,
            ao as int,
            bp@,
            bo as int,
            w as int,
            x / w as int,
            x % w as int,
            p0 + i + 1,
        ) by {
            assert(before[x] == panel_fma(
                ap@,
                ao as int,
                bp@,
                bo as int,
                w as int,
                x / w as int,
                x % w as int,
                p0 + i,
            ));
        }
    }
}

/// The order of cells within a tile is the order of their indices.
proof fn lemma_write(i0: int, j0: int, w: int, n: int, r: int, s: int)
    requires
        0 <= i0,
        0 <= j0,
        j0 + w <= n,
        0 <= r < w,
        0 <= s < w,
    ensures
        ({
            let x = (i0 + r) * n + (j0 + s);
            &&& x / n == i0 + r
            &&& x % n == j0 + s
            &&& in_tile(i0, j0, w, n, x)
            &&& 0 <= (i0 + r) * n
            &&& (i0 + r) * n <= (i0 + w - 1) * n
        }),
{
    lemma_div_mod_of(i0 + r, n, j0 + s);
    assert(0 <= (i0 + r) * n <= (i0 + w - 1) * n) by (nonlinear_arith)
        requires
            0 <= i0 + r <= i0 + w - 1,
            0 <= n,
    ;
}

/// Between the end of a tile's row and the start of its next row no index is in
/// the tile.
proof fn lemma_row_gap(i0: int, j0: int, w: int, n: int, r: int, x: int)
    requires
        0 <= i0,
        0 <= j0,
        0 < w,
        j0 + w <= n,
        (i0 + r) * n + j0 + w <= x < (i0 + r + 1) * n + j0,
    ensures
        !in_tile(i0, j0, w, n, x),
{
    assert((i0 + r + 1) * n == (i0 + r) * n + n) by (nonlinear_arith);
    let d = x - (i0 + r) * n;
    if d < n {
        lemma_div_mod_of(i0 + r, n, d);
    } else {
        lemma_div_mod_of(i0 + r + 1, n, d - n);
    }
}

/// Adds the accumulator tile into the matrix.
fn write_back<T: Scalar>(za: &Vec<T>, w: usize, c: &mut [T], i0: usize, j0: usize, n: usize)
    requires
        0 < w,
        za@.len() == w * w,
        j0 + w <= n,
        (i0 + w - 1) * n + j0 + w <= old(c).len(),
    ensures
        final(c)@.len() == old(c)@.len(),
        forall|x: int|
            0 <= x < old(c)@.len() ==> #[trigger] final(c)@[x] == if in_tile(
                i0 as int,
                j0 as int,
                w as int,
                n as int,
                x,
            ) {
                old(c)@[x].plus_spec(za@[(x / n as int - i0) * w + (x % n as int - j0)])
            } else {
                old(c)@[x]
            },
{
    assert(c@.len() == c.len());
    proof {
        assert forall|x: int| 0 <= x < i0 * n + j0 implies !in_tile(
            i0 as int,
            j0 as int,
            w as int,
            n as int,
            x,
        ) by {
            lemma_fundamental_div_mod(x, n as int);
            lemma_mod_bound(x, n as int);
            let q = x / n as int;
            if q >= i0 && x % n as int >= j0 {
                assert(n * q >= i0 * n) by (nonlinear_arith)
                    requires
                        q >= i0,
                        0 < n,
                ;
            }
        }
    }
    for r in 0..w
        invariant
            0 < w,
            za@.len() == w * w,
            j0 + w <= n,
            (i0 + w - 1) * n + j0 + w <= old(c).len(),
            old(c)@.len() == old(c).len(),
            c@.len() == old(c)@.len(),
            forall|x: int|
                0 <= x < c@.len() ==> #[trigger] c@[x] == if in_tile(
                    i0 as int,
                    j0 as int,
                    w as int,
                    n as int,
                    x,
                ) && x < (i0 + r) * n + j0 {
                    old(c)@[x].plus_spec(za@[(x / n as int - i0) * w + (x % n as int - j0)])
                } else {
                    old(c)@[x]
                },
    {
        proof {
            lemma_write(i0 as int, j0 as int, w as int, n as int, r as int, 0);
            assert(i0 + r <= (i0 + r) * n) by (nonlinear_arith)
                requires
                    0 <= i0 + r,
                    1 <= n,
            ;
        }
        let base: usize = (i0 + r) * n + j0;
        for s in 0..w
            invariant
                0 < w,
                r < w,
                za@.len() == w * w,
                j0 + w <= n,
                base == (i0 + r) * n + j0,
                (i0 + w - 1) * n + j0 + w <= old(c).len(),
                old(c)@.len() == old(c).len(),
                c@.len() == old(c)@.len(),
                forall|x: int|
                    0 <= x < c@.len() ==> #[trigger] c@[x] == if in_tile(
                        i0 as int,
                        j0 as int,
                        w as int,
                        n as int,
                        x,
                    ) && x < base + s {
                        old(c)@[x].plus_spec(za@[(x / n as int - i0) * w + (x % n as int - j0)])
                    } else {
                        old(c)@[x]
                    },
        {
            proof {
                lemma_write(i0 as int, j0 as int, w as int, n as int, r as int, s as int);
                assert(r * w + s < w * w && 0 <= r * w) by (nonlinear_arith)
                    requires
                        0 <= r,
                        r + 1 <= w,
                        s < w,
                ;
                assert(za@.len() == za.len());
                assert(base + s == (i0 + r) * n + (j0 + s));
            }
            let v: T = c[base + s].plus(za[r * w + s]);
            c[base + s] = v;
        }
        proof {
            assert((i0 + (r + 1)) * n == (i0 + r) * n + n) by (nonlinear_arith);
            assert forall|x: int| base + w <= x < (i0 + (r + 1)) * n + j0 implies !in_tile(
                i0 as int,
                j0 as int,
                w as int,
                n as int,
                x,
            ) by {
                lemma_row_gap(i0 as int, j0 as int, w as int, n as int, r as int, x);
            }
        }
    }
    proof {
        assert forall|x: int| x >= (i0 + w) * n + j0 implies !in_tile(
            i0 as int,
            j0 as int,
            w as int,
            n as int,
            x,
        ) by {
            lemma_fundamental_div_mod(x, n as int);
            lemma_mod_bound(x, n as int);
            let q = x / n as int;
            if q < i0 + w {
                assert(n * q + n <= (i0 + w) * n) by (nonlinear_arith)
                    requires
                        q + 1 <= i0 + w,
                        0 < n,
                ;
            }
        }
    }
}

/// What the kernel reads of its panels and writes of its matrix is there.
pub open spec fn kernel_fits(
    w: int,
    kb: int,
    ap: int,
    ao: int,
    bp: int,
    bo: int,
    c: int,
    i0: int,
    j0: int,
    n: int,
) -> bool {
    &&& 0 < w
    &&& w * w <= usize::MAX
    &&& ao + kb * w <= ap
    &&& bo + kb * w <= bp
    &&& j0 + w <= n
    &&& (i0 + w - 1) * n + j0 + w <= c
}

/// The `w` by `w` tile of `c` at row `i0` and column `j0` has grown by the product
/// of `kb` steps of two panels; the rest of the matrix is as it was.
pub open spec fn tile_grown<T: Scalar>(
    c: Seq<T>,
    before: Seq<T>,
    w: int,
    kb: int,
    ap: Seq<T>,
    ao: int,
    bp: Seq<T>,
    bo: int,
    i0: int,
    j0: int,
    n: int,
) -> bool {
    &&& c.len() == before.len()
    &&& forall|x: int|
        0 <= x < c.len() ==> #[trigger] c[x] == if in_tile(i0, j0, w, n, x) {
            before[x].plus_spec(panel_fma(ap, ao, bp, bo, w, x / n - i0, x % n - j0, kb))
        } else {
            before[x]
        }
}

/// The tile grows by the product of `groups * unroll` steps of two panels, taken
/// `unroll` at a time.
pub fn tile_kernel<T: Scalar>(
    w: usize,
    groups: usize,
    unroll: usize,
    ap: &[T],
    ao: usize,
    bp: &[T],
    bo: usize,
    c: &mut [T],
    i0: usize,
    j0: usize,
    n: usize,
)
    requires
        groups * unroll <= usize::MAX,
        kernel_fits(
            w as int,
            groups * unroll,
            ap.len() as int,
            ao as int,
            bp.len() as int,
            bo as int,
            old(c).len() as int,
            i0 as int,
            j0 as int,
            n as int,
        ),
    ensures
        tile_grown(
            final(c)@,
            old(c)@,
            w as int,
            groups * unroll,
            ap@,
            ao as int,
            bp@,
            bo as int,
            i0 as int,
            j0 as int,
            n as int,
        ),
{
    let mut za: Vec<T> = Vec::new();
    for x in 0..w * w
        invariant
            w * w <= usize::MAX,
            za@.len() == x,
            forall|y: int| 0 <= y < x ==> #[trigger] za@[y] == T::zero_spec(),
    {
        za.push(T::zero());
    }
    assert(0 * unroll == 0);
    for g in 0..groups
        invariant
            0 < w,
            za@.len() == w * w,
            groups * unroll <= usize::MAX,
            ao + groups * unroll * w <= ap.len(),
            bo + groups * unroll * w <= bp.len(),
            forall|x: int|
                0 <= x < za@.len() ==> #[trigger] za@[x] == panel_fma(
                    ap@,
                    ao as int,
                    bp@,
                    bo as int,
                    w as int,
                    x / w as int,
                    x % w as int,
                    g * unroll,
                ),
    {
        proof {
            assert(g * unroll + unroll == (g + 1) * unroll && (g + 1) * unroll <= groups * unroll
                && 0 <= g * unroll) by (nonlinear_arith)
                requires
                    0 <= g,
                    g + 1 <= groups,
                    0 <= unroll,
            ;
            assert((g * unroll + unroll) * w <= groups * unroll * w) by (nonlinear_arith)
                requires
                    g * unroll + unroll <= groups * unroll,
                    0 < w,
            ;
        }
        outer_steps(&mut za, w, ap, ao, bp, bo, g * unroll, unroll);
    }
    let ghost done = za@;
    write_back(&za, w, c, i0, j0, n);
    assert forall|x: int|
        0 <= x < c@.len() && in_tile(
            i0 as int,
            j0 as int,
            w as int,
            n as int,
            x,
        ) implies #[trigger] c@[x] == old(c)@[x].plus_spec(
        panel_fma(
            ap@,
            ao as int,
            bp@,
            bo as int,
            w as int,
            x / n as int - i0,
            x % n as int - j0,
            groups * unroll,
        ),
    ) by {
        let (r, s) = (x / n as int - i0, x % n as int - j0);
        lemma_div_mod_of(r, w as int, s);
        let y = r * w + s;
        assert(0 <= y < w * w) by (nonlinear_arith)
            requires
                y == r * w + s,
                0 <= r,
                r + 1 <= w,
                0 <= s < w,
        ;
        assert(done[y] == panel_fma(
            ap@,
            ao as int,
            bp@,
            bo as int,
            w as int,
            y / w as int,
            y % w as int,
            groups * unroll,
        ));
    }
}

} // verus!
