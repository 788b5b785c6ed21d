//! Dense products on 32 by 32 outer-product tiles. `A` is packed into panels of
//! 32 rows and `B` into panels of 32 columns, each panel over all `k` steps.
use crate::gemm::{
    blocks_sum, fill_zero, has_blocks, is_packed_product, lemma_all_rows, lemma_packed_fma,
    range_fma, rows_grown, shapes,
};
use crate::pack::{in_panel, is_packed, lane, lemma_slot, pack_panels, packable};
use crate::partition::{ceil_div, chunk, div_up, lemma_ceil_div, round_up, run_start};
use crate::scalar::Scalar;
use crate::tile::{in_tile, kernel_fits, outer_step, panel_fma, tile_grown, tile_kernel};
use vstd::arithmetic::div_mod::{lemma_fundamental_div_mod, lemma_mod_bound};
use vstd::prelude::*;

verus! {

/// Rows or columns of a panel.
pub const TP: usize = 32;

/// Steps of a block that stays in the nearest cache.
pub const KC3: usize = 512;

// --------------------------------------------------------------------- packing

/// Where the last panel fits, so do the lines and the steps.
proof fn lemma_whole_panels(panels: int, k: int, out: int)
    requires
        0 < panels,
        0 < k,
        forall|q: int| 0 <= q && #[trigger] (q * 32) < panels * 32 ==> q * (k * 32) + k * 32 <= out,
    ensures
        panels * 32 <= out,
        k * 32 <= out,
{
    let q = panels - 1;
    assert(q * 32 < panels * 32);
    assert(q * (k * 32) + k * 32 >= panels * 32 && q * (k * 32) + k * 32 >= k * 32)
        by (nonlinear_arith)
        requires
            q == panels - 1,
            q >= 0,
            k >= 1,
    ;
}

/// Packs the rows of `a`, which are `lda` apart, into panels of 32 rows over `k`
/// steps. The last panel is whole, too: rows up to the next multiple of 32 are
/// read.
pub fn pack_a32<T: Scalar>(a: &[T], lda: usize, m: usize, k: usize, out: &mut [T])
    requires
        packable(
            a.len() as int,
            old(out).len() as int,
            lda as int,
            1,
            round_up(m as int, 32),
            k as int,
            32,
            k * 32,
        ),
    ensures
        k > 0 ==> is_packed(
            final(out)@,
            old(out)@,
            a@,
            lda as int,
            1,
            round_up(m as int, 32),
            k as int,
            32,
            k * 32,
        ),
        k == 0 ==> final(out)@ == old(out)@,
{
    if k > 0 && m > 0 {
        let panels: usize = div_up(m, TP);
        proof {
            lemma_ceil_div(m as int, 32);
            lemma_whole_panels(panels as int, k as int, out.len() as int);
        }
        pack_panels(a, lda, 1, panels * TP, k, TP, k * TP, out);
    }
}

/// Packs the columns of `b`, whose rows are `ldb` apart, into panels of 32
/// columns over `k` steps. The last panel is whole, too: columns up to the next
/// multiple of 32 are read.
pub fn pack_b32<T: Scalar>(b: &[T], ldb: usize, k: usize, n: usize, out: &mut [T])
    requires
        packable(
            b.len() as int,
            old(out).len() as int,
            1,
            ldb as int,
            round_up(n as int, 32),
            k as int,
            32,
            k * 32,
        ),
    ensures
        k > 0 ==> is_packed(
            final(out)@,
            old(out)@,
            b@,
            1,
            ldb as int,
            round_up(n as int, 32),
            k as int,
            32,
            k * 32,
        ),
        k == 0 ==> final(out)@ == old(out)@,
{
    if k > 0 && n > 0 {
        let panels: usize = div_up(n, TP);
        proof {
            lemma_ceil_div(n as int, 32);
            lemma_whole_panels(panels as int, k as int, out.len() as int);
        }
        pack_panels(b, 1, ldb, panels * TP, k, TP, k * TP, out);
    }
}

// --------------------------------------------------------------------- kernels

/// The 32 by 32 tile of `c` at row `i0` and column `j0` grows by the product of
/// `kb` steps of two panels, one outer product at a time.
pub fn sme_kernel_32x32<T: Scalar>(
    kb: usize,
    ap: &[T],
    ao: usize,
    bp: &[T],
    bo: usize,
    c: &mut [T],
    i0: usize,
    j0: usize,
    n: usize,
)
    requires
        kernel_fits(
            32,
            kb as int,
            ap.len() as int,
            ao as int,
            bp.len() as int,
            bo as int,
            old(c).len() as int,
            i0 as int,
            j0 as int,
            n as int,
        ),
    ensures
        tile_grown(
            final(c)@,
            old(c)@,
            32,
            kb as int,
            ap@,
            ao as int,
            bp@,
            bo as int,
            i0 as int,
            j0 as int,
            n as int,
        ),
{
    tile_kernel(TP, kb, 1, ap, ao, bp, bo, c, i0, j0, n);
}

/// The 32 by 32 tile of `c` at row `i0` and column `j0` grows by the product of
/// `4 * kb4` steps of two panels, four outer products at a time.
pub fn sme_kernel_32x32_v2<T: Scalar>(
    kb4: usize,
    ap: &[T],
    ao: usize,
    bp: &[T],
    bo: usize,
    c: &mut [T],
    i0: usize,
    j0: usize,
    n: usize,
)
    requires
        kernel_fits(
            32,
            4 * kb4,
            ap.len() as int,
            ao as int,
            bp.len() as int,
            bo as int,
            old(c).len() as int,
            i0 as int,
            j0 as int,
            n as int,
        ),
    ensures
        tile_grown(
            final(c)@,
            old(c)@,
            32,
            4 * kb4,
            ap@,
            ao as int,
            bp@,
            bo as int,
            i0 as int,
            j0 as int,
            n as int,
        ),
{
    tile_kernel(TP, kb4, 4, ap, ao, bp, bo, c, i0, j0, n);
}

/// Cell `x` of a 16 by 16 tile after the first outer product of two 2-step
/// panels.
pub open spec fn trace_first<T: Scalar>(a: Seq<T>, b: Seq<T>, x: int) -> T {
    T::zero_spec().fma_spec(a[x / 16], b[x % 16])
}

/// The product of a 16 by 2 and a 2 by 16 matrix, packed by steps, with the tile
/// after each of the two outer products.
pub fn traced_matmul<T: Scalar>(a: &[T], b: &[T]) -> (dumps: (Vec<T>, Vec<T>))
    requires
        a.len() >= 32,
        b.len() >= 32,
    ensures
        dumps.0@ == Seq::new(256, |x: int| trace_first(a@, b@, x)),
        dumps.1@ == Seq::new(
            256,
            |x: int| trace_first(a@, b@, x).fma_spec(a@[16 + x / 16], b@[16 + x % 16]),
        ),
{
    let mut za: Vec<T> = Vec::new();
    for x in 0..256usize
        invariant
            za@ == Seq::new(x as nat, |y: int| T::zero_spec()),
    {
        za.push(T::zero());
    }
    outer_step(&mut za, 16, a, 0, b, 0);
    let mut first: Vec<T> = Vec::new();
    for x in 0..256usize
        invariant
            za@.len() == 256,
            first@ == za@.take(x as int),
    {
        first.push(za[x]);
    }
    assert(first@ =~= za@);
    outer_step(&mut za, 16, a, 16, b, 16);
    (first, za)
}

// -------------------------------------------------------------------- products

/// The packed rows of `A`.
spec fn holds_a<T: Scalar>(ap: Seq<T>, a: Seq<T>, m: int, k: int) -> bool {
    forall|q: int, p: int, r: int|
        0 <= q && 32 * q + 32 <= m && 0 <= p < k && 0 <= r < 32 ==> #[trigger] ap[q * (k * 32) + (p
            * 32 + r)] == a[(32 * q + r) * k + p]
}

/// The packed columns of `B`.
spec fn holds_b<T: Scalar>(bp: Seq<T>, b: Seq<T>, n: int, k: int) -> bool {
    forall|q: int, p: int, r: int|
        0 <= q && 32 * q + 32 <= n && 0 <= p < k && 0 <= r < 32 ==> #[trigger] bp[q * (k * 32) + (p
            * 32 + r)] == b[p * n + (32 * q + r)]
}

proof fn lemma_panels(lines: int, k: int, q: int)
    requires
        lines % 32 == 0,
        0 <= q,
        q * 32 < lines,
        0 <= k,
    ensures
        q * (k * 32) + k * 32 <= lines * k,
        0 <= q * (k * 32),
{
    assert(q * (k * 32) + k * 32 <= lines * k && 0 <= q * (k * 32)) by (nonlinear_arith)
        requires
            q * 32 + 32 <= lines,
            0 <= k,
            0 <= q,
    ;
}

/// A buffer of `len` zeros.
fn zeros<T: Scalar>(len: usize) -> (v: Vec<T>)
    ensures
        v@.len() == len,
{
    let mut v: Vec<T> = Vec::new();
    for i in 0..len
        invariant
            v@.len() == i,
    {
        v.push(T::zero());
    }
    v
}

/// Both matrices, packed.
fn pack_both<T: Scalar>(a: &[T], b: &[T], m: usize, n: usize, k: usize) -> (packs: (Vec<T>, Vec<T>))
    requires
        m * k <= a.len(),
        k * n <= b.len(),
        m % 32 == 0,
        n % 32 == 0,
        0 < k,
    ensures
        packs.0@.len() == m * k,
        packs.1@.len() == k * n,
        holds_a(packs.0@, a@, m as int, k as int),
        holds_b(packs.1@, b@, n as int, k as int),
{
    proof {
        assert(a@.len() == a.len() && b@.len() == b.len());
        assert(0 <= m * k && 0 <= k * n) by (nonlinear_arith)
            requires
                0 <= m,
                0 <= n,
                0 <= k,
        ;
        lemma_ceil_div(m as int, 32);
        lemma_ceil_div(n as int, 32);
        assert(round_up(m as int, 32) == m && round_up(n as int, 32) == n);
        assert(k * n == n * k) by (nonlinear_arith);
        assert forall|q: int| 0 <= q && #[trigger] (q * 32) < m && k > 0 implies q * (k * 32) + k * 32
            <= m * k by {
            lemma_panels(m as int, k as int, q);
        }
        assert forall|q: int| 0 <= q && #[trigger] (q * 32) < n && k > 0 implies q * (k * 32) + k * 32
            <= k * n by {
            lemma_panels(n as int, k as int, q);
        }
        if m > 0 {
            assert((m - 1) * k + k == m * k) by (nonlinear_arith);
        }
        if n > 0 {
            assert((k - 1) * n + n == k * n) by (nonlinear_arith);
        }
        assert((k - 1) * 1 == k - 1 && (n - 1) * 1 == n - 1);
    }
    let mut ap: Vec<T> = zeros(m * k);
    let mut bp: Vec<T> = zeros(k * n);
    pack_a32(a, k, m, k, &mut ap);
    pack_b32(b, n, k, n, &mut bp);
    proof {
        assert forall|q: int, p: int, r: int|
            0 <= q && 32 * q + 32 <= m && 0 <= p < k && 0 <= r < 32 implies #[trigger] ap@[q * (k
            * 32) + (p * 32 + r)] == a@[(32 * q + r) * k + p] by {
            let x = q * (k * 32) + (p * 32 + r);
            lemma_slot(q, p, r, k as int, 32, k * 32);
            lemma_panels(m as int, k as int, q);
            assert(in_panel(m as int, k as int, 32, k * 32, x));
            assert(ap@[x] == lane(a@, k as int, 1, m as int, 32, q, p, r));
        }
        assert forall|q: int, p: int, r: int|
            0 <= q && 32 * q + 32 <= n && 0 <= p < k && 0 <= r < 32 implies #[trigger] bp@[q * (k
            * 32) + (p * 32 + r)] == b@[p * n + (32 * q + r)] by {
            let x = q * (k * 32) + (p * 32 + r);
            lemma_slot(q, p, r, k as int, 32, k * 32);
            lemma_panels(n as int, k as int, q);
            assert(in_panel(n as int, k as int, 32, k * 32, x));
            assert(bp@[x] == lane(b@, 1, n as int, n as int, 32, q, p, r));
        }
    }
    (ap, bp)
}

/// The kernel's cell is the product's block of terms.
proof fn lemma_cell<T: Scalar>(
    ap: Seq<T>,
    bp: Seq<T>,
    a: Seq<T>,
    b: Seq<T>,
    m: int,
    n: int,
    k: int,
    pi: int,
    pj: int,
    pc: int,
    kc: int,
    r: int,
    s: int,
)
    requires
        holds_a(ap, a, m, k),
        holds_b(bp, b, n, k),
        0 <= pi,
        32 * pi + 32 <= m,
        0 <= pj,
        32 * pj + 32 <= n,
        0 <= pc,
        0 <= kc,
        pc + kc <= k,
        0 <= r < 32,
        0 <= s < 32,
    ensures
        panel_fma(ap, pi * (k * 32) + pc * 32, bp, pj * (k * 32) + pc * 32, 32, r, s, kc) == range_fma(
            a,
            b,
            n,
            k,
            32 * pi + r,
            32 * pj + s,
            pc,
            kc,
        ),
{
    let (ao, bo) = (pi * (k * 32) + pc * 32, pj * (k * 32) + pc * 32);
    let (i, j) = (32 * pi + r, 32 * pj + s);
    assert forall|p: int| 0 <= p < kc implies #[trigger] ap[ao + p * 32 + r] == a[i * k + (pc + p)] by {
        assert(ap[pi * (k * 32) + ((pc + p) * 32 + r)] == a[(32 * pi + r) * k + (pc + p)]);
    }
    assert forall|p: int| 0 <= p < kc implies #[trigger] bp[bo + p * 32 + s] == b[(pc + p) * n + j] by {
        assert(bp[pj * (k * 32) + ((pc + p) * 32 + s)] == b[(pc + p) * n + (32 * pj + s)]);
    }
    lemma_packed_fma(ap, ao, bp, bo, 32, r, s, a, b, n, k, i, j, pc, kc);
}

/// The shapes of the packed operands and of the blocks of terms.
spec fn panels_fit(ap: int, bp: int, c: int, m: int, n: int, k: int, kc: int, unrolled: bool) -> bool {
    &&& ap == m * k
    &&& bp == k * n
    &&& m * n <= c
    &&& m % 32 == 0
    &&& n % 32 == 0
    &&& 0 < kc <= k
    &&& k % kc == 0
    &&& k * 32 <= usize::MAX
    &&& unrolled ==> kc % 4 == 0
}

/// Grows the 32 rows of panel `pi` of `C` by one block of terms.
fn panel_block<T: Scalar>(
    ap: &Vec<T>,
    bp: &Vec<T>,
    c: &mut [T],
    m: usize,
    n: usize,
    k: usize,
    kc: usize,
    unrolled: bool,
    pi: usize,
    pc: usize,
    Ghost(a): Ghost<Seq<T>>,
    Ghost(b): Ghost<Seq<T>>,
)
    requires
        panels_fit(
            ap@.len() as int,
            bp@.len() as int,
            old(c).len() as int,
            m as int,
            n as int,
            k as int,
            kc as int,
            unrolled,
        ),
        32 * pi + 32 <= m,
        pc + kc <= k,
        holds_a(ap@, a, m as int, k as int),
        holds_b(bp@, b, n as int, k as int),
    ensures
        crate::gemm::block_grown(
            final(c)@,
            old(c)@,
            a,
            b,
            n as int,
            k as int,
            32 * pi,
            32 * pi + 32,
            0,
            n as int,
            pc as int,
            kc as int,
        ),
{
    let npanels: usize = n / TP;
    for pj in 0..npanels
        invariant
            npanels == n / 32,
            panels_fit(
                ap@.len() as int,
                bp@.len() as int,
                old(c).len() as int,
                m as int,
                n as int,
                k as int,
                kc as int,
                unrolled,
            ),
            old(c)@.len() == old(c).len(),
            32 * pi + 32 <= m,
            pc + kc <= k,
            holds_a(ap@, a, m as int, k as int),
            holds_b(bp@, b, n as int, k as int),
            c@.len() == old(c)@.len(),
            crate::gemm::block_grown(
                c@,
                old(c)@,
                a,
                b,
                n as int,
                k as int,
                32 * pi,
                32 * pi + 32,
                0,
                32 * pj,
                pc as int,
                kc as int,
            ),
    {
        let ghost last = c@;
        proof {
            lemma_panels(m as int, k as int, pi as int);
            lemma_panels(n as int, k as int, pj as int);
            assert(k * n == n * k) by (nonlinear_arith);
            assert(ap@.len() == ap.len() && bp@.len() == bp.len());
            assert((32 * pi + 32 - 1) * n + n <= m * n) by (nonlinear_arith)
                requires
                    32 * pi + 32 <= m,
                    0 <= n,
            ;
            assert(pi * (k * 32) == pi * k * 32 && pj * (k * 32) == pj * k * 32)
                by (nonlinear_arith);
            assert(0 <= pi * k && 0 <= pj * k) by (nonlinear_arith)
                requires
                    0 <= pi,
                    0 <= pj,
                    0 <= k,
            ;
        }
        let (ao, bo): (usize, usize) = (pi * k * TP + pc * TP, pj * k * TP + pc * TP);
        if unrolled {
            sme_kernel_32x32_v2(kc / 4, ap, ao, bp, bo, c, pi * TP, pj * TP, n);
        } else {
            sme_kernel_32x32(kc, ap, ao, bp, bo, c, pi * TP, pj * TP, n);
        }
        assert forall|x: int| 0 <= x < c@.len() implies #[trigger] c@[x] == if 32 * pi <= x / (
        n as int) && x / (n as int) < 32 * pi + 32 && 0 <= x % (n as int) && x % (n as int) < 32 * (
        pj + 1) {
            old(c)@[x].plus_spec(
                range_fma(
                    a,
                    b,
                    n as int,
                    k as int,
                    x / (n as int),
                    x % (n as int),
                    pc as int,
                    kc as int,
                ),
            )
        } else {
            old(c)@[x]
        } by {
            lemma_mod_bound(x, n as int);
            assert(last[x] == if 32 * pi <= x / (n as int) && x / (n as int) < 32 * pi + 32 && 0 <= x
                % (n as int) && x % (n as int) < 32 * pj {
                old(c)@[x].plus_spec(
                    range_fma(
                        a,
                        b,
                        n as int,
                        k as int,
                        x / (n as int),
                        x % (n as int),
                        pc as int,
                        kc as int,
                    ),
                )
            } else {
                old(c)@[x]
            });
            if in_tile(32 * pi, 32 * pj, 32, n as int, x) {
                lemma_cell(
                    ap@,
                    bp@,
                    a,
                    b,
                    m as int,
                    n as int,
                    k as int,
                    pi as int,
                    pj as int,
                    pc as int,
                    kc as int,
                    x / (n as int) - 32 * pi,
                    x % (n as int) - 32 * pj,
                );
            }
        }
    }
}

/// Grows the 32 rows of panel `pi` of `C` by all `k` terms, in blocks of `kc`.
fn panel_rows<T: Scalar>(
    ap: &Vec<T>,
    bp: &Vec<T>,
    c: &mut [T],
    m: usize,
    n: usize,
    k: usize,
    kc: usize,
    unrolled: bool,
    pi: usize,
    Ghost(a): Ghost<Seq<T>>,
    Ghost(b): Ghost<Seq<T>>,
)
    requires
        panels_fit(
            ap@.len() as int,
            bp@.len() as int,
            old(c).len() as int,
            m as int,
            n as int,
            k as int,
            kc as int,
            unrolled,
        ),
        32 * pi + 32 <= m,
        holds_a(ap@, a, m as int, k as int),
        holds_b(bp@, b, n as int, k as int),
    ensures
        rows_grown(
            final(c)@,
            old(c)@,
            a,
            b,
            n as int,
            k as int,
            kc as int,
            32 * pi,
            32 * pi + 32,
        ),
{
    let nblocks: usize = k / kc;
    proof {
        lemma_fundamental_div_mod(k as int, kc as int);
        lemma_ceil_div(k as int, kc as int);
        let (q, e) = (k as int / kc as int, ceil_div(k as int, kc as int));
        assert(kc * q == k);
        assert(e == q) by (nonlinear_arith)
            requires
                kc * q == k,
                k <= kc * e < k + kc,
                kc > 0,
        ;
        assert(0 <= q <= k) by (nonlinear_arith)
            requires
                kc * q == k,
                kc > 0,
                k >= 0,
        ;
    }
    for t in 0..nblocks
        invariant
            panels_fit(
                ap@.len() as int,
                bp@.len() as int,
                old(c).len() as int,
                m as int,
                n as int,
                k as int,
                kc as int,
                unrolled,
            ),
            old(c)@.len() == old(c).len(),
            kc * nblocks == k,
            32 * pi + 32 <= m,
            holds_a(ap@, a, m as int, k as int),
            holds_b(bp@, b, n as int, k as int),
            c@.len() == old(c)@.len(),
            has_blocks(
                c@,
                old(c)@,
                a,
                b,
                n as int,
                k as int,
                kc as int,
                32 * pi,
                32 * pi + 32,
                0,
                n as int,
                t as int,
            ),
    {
        let ghost last = c@;
        proof {
            assert(0 <= kc * t && kc * t + kc <= kc * nblocks) by (nonlinear_arith)
                requires
                    0 <= t,
                    t + 1 <= nblocks,
                    0 < kc,
            ;
        }
        let pc: usize = kc * t;
        panel_block(ap, bp, c, m, n, k, kc, unrolled, pi, pc, Ghost(a), Ghost(b));
        assert forall|x: int| 0 <= x < c@.len() implies #[trigger] c@[x] == if 32 * pi <= x / (
        n as int) && x / (n as int) < 32 * pi + 32 && 0 <= x % (n as int) && x % (n as int) < n {
            blocks_sum(
                old(c)@[x],
                a,
                b,
                n as int,
                k as int,
                kc as int,
                x / (n as int),
                x % (n as int),
                t + 1,
            )
        } else {
            old(c)@[x]
        } by {
            assert(last[x] == if 32 * pi <= x / (n as int) && x / (n as int) < 32 * pi + 32 && 0 <= x
                % (n as int) && x % (n as int) < n {
                blocks_sum(
                    old(c)@[x],
                    a,
                    b,
                    n as int,
                    k as int,
                    kc as int,
                    x / (n as int),
                    x % (n as int),
                    t as int,
                )
            } else {
                old(c)@[x]
            });
        }
    }
    proof {
        assert forall|x: int| 0 <= x < c@.len() implies #[trigger] c@[x] == if n > 0 && 32 * pi <= x
            / (n as int) && x / (n as int) < 32 * pi + 32 {
            blocks_sum(
                old(c)@[x],
                a,
                b,
                n as int,
                k as int,
                kc as int,
                x / (n as int),
                x % (n as int),
                ceil_div(k as int, kc as int),
            )
        } else {
            old(c)@[x]
        } by {
            if n > 0 {
                lemma_mod_bound(x, n as int);
            }
        }
    }
}

/// All row panels, in equal chunks for `nthreads` workers, one after another.
fn all_panels<T: Scalar>(
    ap: &Vec<T>,
    bp: &Vec<T>,
    c: &mut [T],
    m: usize,
    n: usize,
    k: usize,
    kc: usize,
    unrolled: bool,
    nthreads: usize,
    Ghost(a): Ghost<Seq<T>>,
    Ghost(b): Ghost<Seq<T>>,
)
    requires
        panels_fit(
            ap@.len() as int,
            bp@.len() as int,
            old(c).len() as int,
            m as int,
            n as int,
            k as int,
            kc as int,
            unrolled,
        ),
        0 < nthreads,
        holds_a(ap@, a, m as int, k as int),
        holds_b(bp@, b, n as int, k as int),
    ensures
        rows_grown(final(c)@, old(c)@, a, b, n as int, k as int, kc as int, 0, m as int),
{
    let npanels: usize = m / TP;
    let ghost np = npanels as int;
    let ghost size = ceil_div(np, nthreads as int);
    proof {
        lemma_ceil_div(np, nthreads as int);
        assert(0 * size == 0);
    }
    let mut t: usize = 0;
    while t < nthreads
        invariant_except_break
            t <= nthreads,
        invariant
            np == npanels == m / 32,
            size == ceil_div(np, nthreads as int),
            panels_fit(
                ap@.len() as int,
                bp@.len() as int,
                old(c).len() as int,
                m as int,
                n as int,
                k as int,
                kc as int,
                unrolled,
            ),
            old(c)@.len() == old(c).len(),
            0 < nthreads,
            holds_a(ap@, a, m as int, k as int),
            holds_b(bp@, b, n as int, k as int),
            c@.len() == old(c)@.len(),
            0 <= run_start(np, size, t as int),
            rows_grown(
                c@,
                old(c)@,
                a,
                b,
                n as int,
                k as int,
                kc as int,
                0,
                32 * run_start(np, size, t as int),
            ),
        ensures
            t == nthreads || t * size >= np,
        decreases nthreads - t,
    {
        match chunk(npanels, nthreads, t) {
            None => {
                break ;
            },
            Some((p0, p1)) => {
                for pi in p0..p1
                    invariant
                        npanels == m / 32,
                        p1 <= npanels,
                        panels_fit(
                            ap@.len() as int,
                            bp@.len() as int,
                            old(c).len() as int,
                            m as int,
                            n as int,
                            k as int,
                            kc as int,
                            unrolled,
                        ),
                        old(c)@.len() == old(c).len(),
                        holds_a(ap@, a, m as int, k as int),
                        holds_b(bp@, b, n as int, k as int),
                        c@.len() == old(c)@.len(),
                        rows_grown(
                            c@,
                            old(c)@,
                            a,
                            b,
                            n as int,
                            k as int,
                            kc as int,
                            0,
                            32 * pi,
                        ),
                {
                    let ghost last = c@;
                    panel_rows(ap, bp, c, m, n, k, kc, unrolled, pi, Ghost(a), Ghost(b));
                    assert forall|x: int| 0 <= x < c@.len() implies #[trigger] c@[x] == if n > 0 && 0
                        <= x / (n as int) && x / (n as int) < 32 * (pi + 1) {
                        blocks_sum(
                            old(c)@[x],
                            a,
                            b,
                            n as int,
                            k as int,
                            kc as int,
                            x / (n as int),
                            x % (n as int),
                            ceil_div(k as int, kc as int),
                        )
                    } else {
                        old(c)@[x]
                    } by {
                        assert(last[x] == if n > 0 && 0 <= x / (n as int) && x / (n as int) < 32
                            * pi {
                            blocks_sum(
                                old(c)@[x],
                                a,
                                b,
                                n as int,
                                k as int,
                                kc as int,
                                x / (n as int),
                                x % (n as int),
                                ceil_div(k as int, kc as int),
                            )
                        } else {
                            old(c)@[x]
                        });
                    }
                }
            },
        }
        t = t + 1;
    }
    proof {
        lemma_ceil_div(np, nthreads as int);
        assert(nthreads * size == size * nthreads) by (nonlinear_arith);
        assert(32 * np == m);
    }
}

/// What the tiled products need of their operands.
pub open spec fn tiled_shapes(a: int, b: int, c: int, m: int, n: int, k: int, nthreads: int) -> bool {
    &&& shapes(a, b, c, m, n, k)
    &&& m % 32 == 0
    &&& n % 32 == 0
    &&& 0 < k
    &&& 0 < nthreads
}

/// The product on 32 by 32 tiles, each over all `k` terms. Row panels go to
/// `nthreads` workers in equal chunks. Elements beyond the product become zero.
pub fn sme_gemm<T: Scalar>(
    a: &[T],
    b: &[T],
    c: &mut [T],
    m: usize,
    n: usize,
    k: usize,
    nthreads: usize,
)
    requires
        tiled_shapes(
            a.len() as int,
            b.len() as int,
            old(c).len() as int,
            m as int,
            n as int,
            k as int,
            nthreads as int,
        ),
    ensures
        final(c)@.len() == old(c)@.len(),
        is_packed_product(final(c)@, a@, b@, m as int, n as int, k as int, k as int),
{
    tiled_product(a, b, c, m, n, k, k, false, nthreads);
}

/// As `sme_gemm`, four steps at a time.
pub fn sme_gemm_v2<T: Scalar>(
    a: &[T],
    b: &[T],
    c: &mut [T],
    m: usize,
    n: usize,
    k: usize,
    nthreads: usize,
)
    requires
        tiled_shapes(
            a.len() as int,
            b.len() as int,
            old(c).len() as int,
            m as int,
            n as int,
            k as int,
            nthreads as int,
        ),
        k % 4 == 0,
    ensures
        final(c)@.len() == old(c)@.len(),
        is_packed_product(final(c)@, a@, b@, m as int, n as int, k as int, k as int),
{
    tiled_product(a, b, c, m, n, k, k, true, nthreads);
}

/// The block of terms of the third version: 512, or all terms where they are
/// fewer.
pub open spec fn block_steps(k: int) -> int {
    if 512 < k {
        512
    } else {
        k
    }
}

/// As `sme_gemm_v2`, in blocks of terms that stay in the nearest cache. There are
/// no more workers than row panels.
pub fn sme_gemm_v3<T: Scalar>(
    a: &[T],
    b: &[T],
    c: &mut [T],
    m: usize,
    n: usize,
    k: usize,
    nthreads: usize,
)
    requires
        tiled_shapes(
            a.len() as int,
            b.len() as int,
            old(c).len() as int,
            m as int,
            n as int,
            k as int,
            nthreads as int,
        ),
        0 < m,
        k % 4 == 0,
        k as int % block_steps(k as int) == 0,
    ensures
        final(c)@.len() == old(c)@.len(),
        is_packed_product(
            final(c)@,
            a@,
            b@,
            m as int,
            n as int,
            k as int,
            block_steps(k as int),
        ),
{
    let kc: usize = if KC3 < k {
        KC3
    } else {
        k
    };
    let npanels: usize = m / TP;
    let workers: usize = if nthreads < npanels {
        nthreads
    } else {
        npanels
    };
    tiled_product(a, b, c, m, n, k, kc, true, workers);
}

/// Clears `c`, packs both matrices and runs all panels.
fn tiled_product<T: Scalar>(
    a: &[T],
    b: &[T],
    c: &mut [T],
    m: usize,
    n: usize,
    k: usize,
    kc: usize,
    unrolled: bool,
    nthreads: usize,
)
    requires
        tiled_shapes(
            a.len() as int,
            b.len() as int,
            old(c).len() as int,
            m as int,
            n as int,
            k as int,
            nthreads as int,
        ),
        0 < kc <= k,
        k % kc == 0,
        unrolled ==> kc % 4 == 0,
    ensures
        final(c)@.len() == old(c)@.len(),
        is_packed_product(final(c)@, a@, b@, m as int, n as int, k as int, kc as int),
{
    assert(c@.len() == c.len());
    fill_zero(c);
    assert(c@.len() == c.len());
    let ghost before = c@;
    if m == 0 || n == 0 {
        proof {
            assert(m * n == 0) by (nonlinear_arith)
                requires
                    m == 0 || n == 0,
            ;
        }
        return ;
    }
    assert(k * 32 <= m * k) by (nonlinear_arith)
        requires
            32 <= m,
            0 <= k,
    ;
    let (ap, bp) = pack_both(a, b, m, n, k);
    all_panels(&ap, &bp, c, m, n, k, kc, unrolled, nthreads, Ghost(a@), Ghost(b@));
    proof {
        lemma_all_rows(c@, before, a@, b@, m as int, n as int, k as int, kc as int);
    }
}

} // verus!
