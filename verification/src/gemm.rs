//! Dense matrix products `C = A * B`, row by row in memory, on a ladder of loop
//! orders: plain, reordered, blocked for the caches, and packed with an 8 by 8
//! kernel. `A` has `m` rows of `k`, `B` has `k` rows of `n`.
use crate::arith::{lemma_div_mod_of, lemma_wrap_multiple, lemma_wrap_small, sum, wrap_i32};
use crate::exact::{
    congruent, integers_are_exact, is_exact, lemma_congruent_flip, lemma_congruent_plus,
    lemma_congruent_same, lemma_congruent_through, multiple,
};
use crate::pack::{in_panel, is_packed, lane, lemma_slot, pack_panels, packable};
use crate::partition::{ceil_div, div_up, lemma_ceil_div, round_up, run, run_start};
use crate::scalar::Scalar;
use crate::tile::{in_tile, kernel_fits, panel_fma, tile_grown, tile_kernel};
use vstd::arithmetic::div_mod::{lemma_fundamental_div_mod, lemma_mod_bound};
use vstd::prelude::*;
use vstd::slice::slice_subrange;

verus! {

/// Rows of the kernel's tile.
pub const MR: usize = 8;

/// Columns of the kernel's tile.
pub const NR: usize = 8;

/// Steps of a packed panel.
pub const KC: usize = 512;

/// Elements of a packed panel: `KC` steps of eight.
pub const PANEL: usize = 4096;

/// Rows of a packed block of `A`.
pub const MC: usize = 128;

/// Columns of a packed block of `B`.
pub const NC: usize = 1024;

// ---------------------------------------------------------------------- models

/// The first `p` terms of row `i` of `A` times column `j` of `B`, each product
/// rounded before it is added.
pub open spec fn row_dot<T: Scalar>(
    a: Seq<T>,
    b: Seq<T>,
    n: int,
    k: int,
    i: int,
    j: int,
    p: int,
) -> T
    decreases p,
{
    if p <= 0 {
        T::zero_spec()
    } else {
        row_dot(a, b, n, k, i, j, p - 1).mul_plus_spec(a[i * k + (p - 1)], b[(p - 1) * n + j])
    }
}

/// The `count` terms from `p0` on of row `i` of `A` times column `j` of `B`, each
/// added in one step.
pub open spec fn range_fma<T: Scalar>(
    a: Seq<T>,
    b: Seq<T>,
    n: int,
    k: int,
    i: int,
    j: int,
    p0: int,
    count: int,
) -> T
    decreases count,
{
    if count <= 0 {
        T::zero_spec()
    } else {
        range_fma(a, b, n, k, i, j, p0, count - 1).fma_spec(
            a[i * k + (p0 + count - 1)],
            b[(p0 + count - 1) * n + j],
        )
    }
}

/// `start` plus the first `t` blocks of `kc` terms of row `i` of `A` times column
/// `j` of `B`, each block summed by itself.
pub open spec fn blocks_sum<T: Scalar>(
    start: T,
    a: Seq<T>,
    b: Seq<T>,
    n: int,
    k: int,
    kc: int,
    i: int,
    j: int,
    t: int,
) -> T
    decreases t,
{
    if t <= 0 {
        start
    } else {
        let p0 = kc * (t - 1);
        blocks_sum(start, a, b, n, k, kc, i, j, t - 1).plus_spec(
            range_fma(
                a,
                b,
                n,
                k,
                i,
                j,
                p0,
                if kc < k - p0 {
                    kc
                } else {
                    k - p0
                },
            ),
        )
    }
}

/// The matrices have the sizes that the product needs.
pub open spec fn shapes(a: int, b: int, c: int, m: int, n: int, k: int) -> bool {
    &&& m * k <= a
    &&& k * n <= b
    &&& m * n <= c
}

// ---------------------------------------------------------------- plain products

proof fn lemma_index(m: int, n: int, i: int, j: int)
    requires
        0 <= i < m,
        0 <= j < n,
    ensures
        0 <= i * n,
        i * n + j < m * n,
        (i * n + j) / n == i,
        (i * n + j) % n == j,
        i <= i * n,
{
    assert(0 <= i * n && i * n + j < m * n && i <= i * n) by (nonlinear_arith)
        requires
            0 <= i,
            i + 1 <= m,
            0 <= j < n,
    ;
    lemma_div_mod_of(i, n, j);
}

proof fn lemma_rows_of(n: int, m: int, x: int)
    requires
        0 < n,
        0 <= x,
    ensures
        x / n < m <==> x < m * n,
        0 <= x / n,
        0 <= x % n < n,
        x == (x / n) * n + x % n,
{
    lemma_fundamental_div_mod(x, n);
    lemma_mod_bound(x, n);
    let q = x / n;
    assert(n * q == q * n) by (nonlinear_arith);
    assert(q < m <==> x < m * n) by (nonlinear_arith)
        requires
            x == n * q + x % n,
            0 <= x % n < n,
    ;
    assert(0 <= q) by (nonlinear_arith)
        requires
            q * n + n > x,
            x >= 0,
            n > 0,
    ;
}

/// Sets every element to zero.
pub fn fill_zero<T: Scalar>(c: &mut [T])
    ensures
        final(c)@ == Seq::new(old(c)@.len(), |x: int| T::zero_spec()),
{
    let len: usize = c.len();
    for x in 0..len
        invariant
            len == old(c)@.len(),
            c@.len() == len,
            forall|y: int| 0 <= y < x ==> #[trigger] c@[y] == T::zero_spec(),
    {
        c[x] = T::zero();
    }
}

/// The product by rows, columns, terms. Elements beyond the product stay.
pub fn matmul_naive<T: Scalar>(a: &[T], b: &[T], c: &mut [T], m: usize, n: usize, k: usize)
    requires
        shapes(
            a.len() as int,
            b.len() as int,
            old(c).len() as int,
            m as int,
            n as int,
            k as int,
        ),
    ensures
        final(c)@.len() == old(c)@.len(),
        forall|x: int|
            0 <= x < old(c)@.len() ==> #[trigger] final(c)@[x] == if x < m * n {
                row_dot(a@, b@, n as int, k as int, x / (n as int), x % (n as int), k as int)
            } else {
                old(c)@[x]
            },
{
    assert(c@.len() == c.len() && a@.len() == a.len() && b@.len() == b.len());
    assert(0 * n == 0);
    for i in 0..m
        invariant
            shapes(
                a@.len() as int,
                b@.len() as int,
                old(c)@.len() as int,
                m as int,
                n as int,
                k as int,
            ),
            old(c)@.len() == old(c).len() && a@.len() == a.len() && b@.len() == b.len(),
            c@.len() == old(c)@.len(),
            forall|x: int|
                0 <= x < c@.len() ==> #[trigger] c@[x] == if x < i * n {
                    row_dot(a@, b@, n as int, k as int, x / (n as int), x % (n as int), k as int)
                } else {
                    old(c)@[x]
                },
    {
        for j in 0..n
            invariant
                i < m,
                shapes(
                    a@.len() as int,
                    b@.len() as int,
                    old(c)@.len() as int,
                    m as int,
                    n as int,
                    k as int,
                ),
                old(c)@.len() == old(c).len() && a@.len() == a.len() && b@.len() == b.len(),
                c@.len() == old(c)@.len(),
                forall|x: int|
                    0 <= x < c@.len() ==> #[trigger] c@[x] == if x < i * n + j {
                        row_dot(a@, b@, n as int, k as int, x / (n as int), x % (n as int), k as int)
                    } else {
                        old(c)@[x]
                    },
        {
            let mut acc: T = T::zero();
            for p in 0..k
                invariant
                    i < m,
                    j < n,
                    shapes(
                        a@.len() as int,
                        b@.len() as int,
                        old(c)@.len() as int,
                        m as int,
                        n as int,
                        k as int,
                    ),
                    a@.len() == a.len() && b@.len() == b.len(),
                    acc == row_dot(a@, b@, n as int, k as int, i as int, j as int, p as int),
            {
                proof {
                    lemma_index(m as int, k as int, i as int, p as int);
                    lemma_index(k as int, n as int, p as int, j as int);
                }
                acc = acc.mul_plus(a[i * k + p], b[p * n + j]);
            }
            proof {
                lemma_index(m as int, n as int, i as int, j as int);
            }
            c[i * n + j] = acc;
        }
        assert((i + 1) * n == i * n + n) by (nonlinear_arith);
    }
}

/// `c` holds, in row `i` and columns `jlo .. jhi`, one more term than `before`.
spec fn term_added<T: Scalar>(
    c: Seq<T>,
    before: Seq<T>,
    a: Seq<T>,
    b: Seq<T>,
    n: int,
    k: int,
    i: int,
    p: int,
    jlo: int,
    jhi: int,
) -> bool {
    &&& c.len() == before.len()
    &&& forall|x: int|
        0 <= x < c.len() ==> #[trigger] c[x] == if x / n == i && jlo <= x % n < jhi {
            before[x].mul_plus_spec(a[i * k + p], b[p * n + x % n])
        } else {
            before[x]
        }
}

/// Adds term `p` to row `i`, in the columns `jlo .. jhi`.
fn add_term<T: Scalar>(
    a: &[T],
    b: &[T],
    c: &mut [T],
    m: usize,
    n: usize,
    k: usize,
    i: usize,
    p: usize,
    jlo: usize,
    jhi: usize,
)
    requires
        shapes(
            a.len() as int,
            b.len() as int,
            old(c).len() as int,
            m as int,
            n as int,
            k as int,
        ),
        i < m,
        p < k,
        jlo <= jhi <= n,
        0 < n,
    ensures
        term_added(
            final(c)@,
            old(c)@,
            a@,
            b@,
            n as int,
            k as int,
            i as int,
            p as int,
            jlo as int,
            jhi as int,
        ),
{
    assert(c@.len() == c.len() && a@.len() == a.len() && b@.len() == b.len());
    proof {
        lemma_index(m as int, k as int, i as int, p as int);
    }
    let av: T = a[i * k + p];
    for j in jlo..jhi
        invariant
            shapes(
                a@.len() as int,
                b@.len() as int,
                old(c)@.len() as int,
                m as int,
                n as int,
                k as int,
            ),
            old(c)@.len() == old(c).len() && a@.len() == a.len() && b@.len() == b.len(),
            i < m,
            p < k,
            jlo <= jhi <= n,
            0 < n,
            av == a@[i * k + p],
            term_added(
                c@,
                old(c)@,
                a@,
                b@,
                n as int,
                k as int,
                i as int,
                p as int,
                jlo as int,
                j as int,
            ),
    {
        proof {
            lemma_index(k as int, n as int, p as int, j as int);
            lemma_index(m as int, n as int, i as int, j as int);
        }
        let ghost last = c@;
        let v: T = c[i * n + j].mul_plus(av, b[p * n + j]);
        c[i * n + j] = v;
        assert forall|x: int| 0 <= x < c@.len() implies #[trigger] c@[x] == if x / (n as int) == i
            && jlo <= x % (n as int) && x % (n as int) < j + 1 {
            old(c)@[x].mul_plus_spec(a@[i * k + p], b@[p * n + x % (n as int)])
        } else {
            old(c)@[x]
        } by {
            lemma_rows_of(n as int, m as int, x);
            assert(last[x] == if x / (n as int) == i && jlo <= x % (n as int) && x % (n as int) < j {
                old(c)@[x].mul_plus_spec(a@[i * k + p], b@[p * n + x % (n as int)])
            } else {
                old(c)@[x]
            });
        }
    }
}

/// In rows `ilo .. ihi` and columns `jlo .. jhi`, `c` holds the first `p` terms;
/// elsewhere it is as `before`.
spec fn terms_in<T: Scalar>(
    c: Seq<T>,
    before: Seq<T>,
    a: Seq<T>,
    b: Seq<T>,
    n: int,
    k: int,
    ilo: int,
    ihi: int,
    jlo: int,
    jhi: int,
    p: int,
) -> bool {
    &&& c.len() == before.len()
    &&& forall|x: int|
        0 <= x < c.len() ==> #[trigger] c[x] == if ilo <= x / n < ihi && jlo <= x % n < jhi {
            row_dot(a, b, n, k, x / n, x % n, p)
        } else {
            before[x]
        }
}

/// Adds the terms `p0 .. p1` to rows `0 .. m`, in the columns `jlo .. jhi`.
fn add_terms<T: Scalar>(
    a: &[T],
    b: &[T],
    c: &mut [T],
    m: usize,
    n: usize,
    k: usize,
    p0: usize,
    p1: usize,
    jlo: usize,
    jhi: usize,
)
    requires
        shapes(
            a.len() as int,
            b.len() as int,
            old(c).len() as int,
            m as int,
            n as int,
            k as int,
        ),
        p0 <= p1 <= k,
        jlo <= jhi <= n,
        0 < n,
        terms_in(
            old(c)@,
            old(c)@,
            a@,
            b@,
            n as int,
            k as int,
            0,
            m as int,
            jlo as int,
            jhi as int,
            p0 as int,
        ),
    ensures
        terms_in(
            final(c)@,
            old(c)@,
            a@,
            b@,
            n as int,
            k as int,
            0,
            m as int,
            jlo as int,
            jhi as int,
            p1 as int,
        ),
{
    for i in 0..m
        invariant
            shapes(
                a.len() as int,
                b.len() as int,
                old(c)@.len() as int,
                m as int,
                n as int,
                k as int,
            ),
            old(c)@.len() == old(c).len(),
            p0 <= p1 <= k,
            jlo <= jhi <= n,
            0 < n,
            terms_in(
                old(c)@,
                old(c)@,
                a@,
                b@,
                n as int,
                k as int,
                0,
                m as int,
                jlo as int,
                jhi as int,
                p0 as int,
            ),
            terms_in(
                c@,
                old(c)@,
                a@,
                b@,
                n as int,
                k as int,
                0,
                i as int,
                jlo as int,
                jhi as int,
                p1 as int,
            ),
    {
        let ghost before = c@;
        proof {
            assert forall|x: int|
                0 <= x < c@.len() && x / (n as int) == i && jlo <= x % (n as int)
                    < jhi implies #[trigger] c@[x] == row_dot(
                a@,
                b@,
                n as int,
                k as int,
                x / (n as int),
                x % (n as int),
                p0 as int,
            ) by {
                assert(old(c)@[x] == c@[x]);
            }
        }
        for p in p0..p1
            invariant
                shapes(
                    a.len() as int,
                    b.len() as int,
                    before.len() as int,
                    m as int,
                    n as int,
                    k as int,
                ),
                c@.len() == before.len(),
                p0 <= p1 <= k,
                jlo <= jhi <= n,
                0 < n,
                i < m,
                terms_in(
                    c@,
                    before,
                    a@,
                    b@,
                    n as int,
                    k as int,
                    i as int,
                    i + 1,
                    jlo as int,
                    jhi as int,
                    p as int,
                ),
        {
            let ghost last = c@;
            add_term(a, b, c, m, n, k, i, p, jlo, jhi);
            assert forall|x: int| 0 <= x < c@.len() implies #[trigger] c@[x] == if i <= x / (n as int)
                < i + 1 && jlo <= x % (n as int) && x % (n as int) < jhi {
                row_dot(a@, b@, n as int, k as int, x / (n as int), x % (n as int), p + 1)
            } else {
                before[x]
            } by {
                assert(last[x] == if i <= x / (n as int) && x / (n as int) < i + 1 && jlo <= x
                    % n as int && x % (n as int) < jhi {
                    row_dot(a@, b@, n as int, k as int, x / (n as int), x % (n as int), p as int)
                } else {
                    before[x]
                });
            }
        }
        assert forall|x: int| 0 <= x < c@.len() implies #[trigger] c@[x] == if 0 <= x / (n as int)
            && x / (n as int) < i + 1 && jlo <= x % (n as int) && x % (n as int) < jhi {
            row_dot(a@, b@, n as int, k as int, x / (n as int), x % (n as int), p1 as int)
        } else {
            old(c)@[x]
        } by {
            lemma_rows_of(n as int, m as int, x);
            assert(before[x] == if 0 <= x / (n as int) && x / (n as int) < i && jlo <= x % (n as int)
                && x % (n as int) < jhi {
                row_dot(a@, b@, n as int, k as int, x / (n as int), x % (n as int), p1 as int)
            } else {
                old(c)@[x]
            });
        }
    }
}

/// `c` is the product, and zero beyond it.
pub open spec fn is_product<T: Scalar>(
    c: Seq<T>,
    a: Seq<T>,
    b: Seq<T>,
    m: int,
    n: int,
    k: int,
) -> bool {
    forall|x: int|
        0 <= x < c.len() ==> #[trigger] c[x] == if x < m * n {
            row_dot(a, b, n, k, x / n, x % n, k)
        } else {
            T::zero_spec()
        }
}

/// The product by rows, terms, columns. Elements beyond the product become zero.
pub fn matmul_ikj<T: Scalar>(a: &[T], b: &[T], c: &mut [T], m: usize, n: usize, k: usize)
    requires
        shapes(
            a.len() as int,
            b.len() as int,
            old(c).len() as int,
            m as int,
            n as int,
            k as int,
        ),
    ensures
        final(c)@.len() == old(c)@.len(),
        is_product(final(c)@, a@, b@, m as int, n as int, k as int),
{
    assert(c@.len() == c.len());
    fill_zero(c);
    if n == 0 {
        assert(m * n == 0) by (nonlinear_arith)
            requires
                n == 0,
        ;
        return ;
    }
    add_terms(a, b, c, m, n, k, 0, k, 0, n);
    proof {
        assert forall|x: int| 0 <= x < c@.len() implies #[trigger] c@[x] == if x < m * n {
            row_dot(a@, b@, n as int, k as int, x / (n as int), x % (n as int), k as int)
        } else {
            T::zero_spec()
        } by {
            lemma_rows_of(n as int, m as int, x);
        }
    }
}

/// The product by blocks of columns and of terms, then as `matmul_ikj`. Elements
/// beyond the product become zero.
pub fn matmul_blocked<T: Scalar>(a: &[T], b: &[T], c: &mut [T], m: usize, n: usize, k: usize)
    requires
        shapes(
            a.len() as int,
            b.len() as int,
            old(c).len() as int,
            m as int,
            n as int,
            k as int,
        ),
    ensures
        final(c)@.len() == old(c)@.len(),
        is_product(final(c)@, a@, b@, m as int, n as int, k as int),
{
    assert(c@.len() == c.len());
    fill_zero(c);
    let ghost zeros = c@;
    if n == 0 {
        assert(m * n == 0) by (nonlinear_arith)
            requires
                n == 0,
        ;
        return ;
    }
    let mut jc: usize = 0;
    while jc < n
        invariant
            shapes(
                a.len() as int,
                b.len() as int,
                old(c)@.len() as int,
                m as int,
                n as int,
                k as int,
            ),
            c@.len() == old(c)@.len(),
            zeros == Seq::new(old(c)@.len(), |x: int| T::zero_spec()),
            0 < n,
            jc <= n,
            terms_in(c@, zeros, a@, b@, n as int, k as int, 0, m as int, 0, jc as int, k as int),
        decreases n - jc,
    {
        let nb: usize = if NC < n - jc {
            NC
        } else {
            n - jc
        };
        let ghost before = c@;
        let mut pc: usize = 0;
        while pc < k
            invariant
                shapes(
                    a.len() as int,
                    b.len() as int,
                    old(c)@.len() as int,
                    m as int,
                    n as int,
                    k as int,
                ),
                c@.len() == old(c)@.len(),
                zeros == Seq::new(old(c)@.len(), |x: int| T::zero_spec()),
                before.len() == c@.len(),
                0 < n,
                pc <= k,
                0 < nb,
                jc + nb <= n,
                terms_in(
                    before,
                    zeros,
                    a@,
                    b@,
                    n as int,
                    k as int,
                    0,
                    m as int,
                    0,
                    jc as int,
                    k as int,
                ),
                terms_in(
                    c@,
                    before,
                    a@,
                    b@,
                    n as int,
                    k as int,
                    0,
                    m as int,
                    jc as int,
                    jc + nb,
                    pc as int,
                ),
            decreases k - pc,
        {
            let kb: usize = if KC < k - pc {
                KC
            } else {
                k - pc
            };
            let ghost last = c@;
            add_terms(a, b, c, m, n, k, pc, pc + kb, jc, jc + nb);
            assert forall|x: int| 0 <= x < c@.len() implies #[trigger] c@[x] == if 0 <= x / (n as int)
                && x / (n as int) < m && jc <= x % (n as int) && x % (n as int) < jc + nb {
                row_dot(a@, b@, n as int, k as int, x / (n as int), x % (n as int), pc + kb)
            } else {
                before[x]
            } by {
                assert(last[x] == if 0 <= x / (n as int) && x / (n as int) < m && jc <= x % (n as int)
                    && x % (n as int) < jc + nb {
                    row_dot(a@, b@, n as int, k as int, x / (n as int), x % (n as int), pc as int)
                } else {
                    before[x]
                });
            }
            pc = pc + kb;
        }
        assert forall|x: int| 0 <= x < c@.len() implies #[trigger] c@[x] == if 0 <= x / (n as int)
            && x / (n as int) < m && 0 <= x % (n as int) && x % (n as int) < jc + nb {
            row_dot(a@, b@, n as int, k as int, x / (n as int), x % (n as int), k as int)
        } else {
            zeros[x]
        } by {
            lemma_rows_of(n as int, m as int, x);
            assert(before[x] == if 0 <= x / (n as int) && x / (n as int) < m && 0 <= x % (n as int) && x
                % (n as int) < jc {
                row_dot(a@, b@, n as int, k as int, x / (n as int), x % (n as int), k as int)
            } else {
                zeros[x]
            });
        }
        jc = jc + nb;
    }
    proof {
        assert forall|x: int| 0 <= x < c@.len() implies #[trigger] c@[x] == if x < m * n {
            row_dot(a@, b@, n as int, k as int, x / (n as int), x % (n as int), k as int)
        } else {
            T::zero_spec()
        } by {
            lemma_rows_of(n as int, m as int, x);
        }
    }
}

// --------------------------------------------------------------- packed products

/// Packs `mb` rows of `kb` elements of `a`, whose rows are `lda` apart, into
/// panels of eight rows, each step by step; panels are `KC` steps apart and rows
/// beyond the last are zero.
pub fn pack_a<T: Scalar>(a: &[T], lda: usize, mb: usize, kb: usize, out: &mut [T])
    requires
        kb <= KC,
        packable(a.len() as int, old(out).len() as int, lda as int, 1, mb as int, kb as int, 8, 4096),
    ensures
        is_packed(final(out)@, old(out)@, a@, lda as int, 1, mb as int, kb as int, 8, 4096),
{
    pack_panels(a, lda, 1, mb, kb, MR, PANEL, out);
}

/// Packs `nb` columns of `kb` elements of `b`, whose rows are `ldb` apart, into
/// panels of eight columns, each step by step; panels are `KC` steps apart and
/// columns beyond the last are zero.
pub fn pack_b<T: Scalar>(b: &[T], ldb: usize, kb: usize, nb: usize, out: &mut [T])
    requires
        kb <= KC,
        packable(b.len() as int, old(out).len() as int, 1, ldb as int, nb as int, kb as int, 8, 4096),
    ensures
        is_packed(final(out)@, old(out)@, b@, 1, ldb as int, nb as int, kb as int, 8, 4096),
{
    pack_panels(b, 1, ldb, nb, kb, NR, PANEL, out);
}

/// The 8 by 8 tile of `c` at row `i0` and column `j0` grows by the product of `kb`
/// steps of two panels.
pub fn kernel_8x8<T: Scalar>(
    kb: usize,
    ap: &[T],
    ao: usize,
    bp: &[T],
    bo: usize,
    c: &mut [T],
    i0: usize,
    j0: usize,
    n: usize,
)
    requires
        kernel_fits(
            8,
            kb as int,
            ap.len() as int,
            ao as int,
            bp.len() as int,
            bo as int,
            old(c).len() as int,
            i0 as int,
            j0 as int,
            n as int,
        ),
    ensures
        tile_grown(
            final(c)@,
            old(c)@,
            8,
            kb as int,
            ap@,
            ao as int,
            bp@,
            bo as int,
            i0 as int,
            j0 as int,
            n as int,
        ),
{
    tile_kernel(MR, kb, 1, ap, ao, bp, bo, c, i0, j0, n);
}

/// In rows `ilo .. ihi` and columns `jlo .. jhi`, `c` has grown by the `kb` terms
/// from `pc` on; elsewhere it is as `before`.
pub open spec fn block_grown<T: Scalar>(
    c: Seq<T>,
    before: Seq<T>,
    a: Seq<T>,
    b: Seq<T>,
    n: int,
    k: int,
    ilo: int,
    ihi: int,
    jlo: int,
    jhi: int,
    pc: int,
    kb: int,
) -> bool {
    &&& c.len() == before.len()
    &&& forall|x: int|
        0 <= x < c.len() ==> #[trigger] c[x] == if ilo <= x / n < ihi && jlo <= x % n < jhi {
            before[x].plus_spec(range_fma(a, b, n, k, x / n, x % n, pc, kb))
        } else {
            before[x]
        }
}

/// A kernel whose panels hold, lane by lane, what a block of terms reads, computes
/// that block of terms.
pub proof fn lemma_packed_fma<T: Scalar>(
    ap: Seq<T>,
    ao: int,
    bp: Seq<T>,
    bo: int,
    w: int,
    r: int,
    s: int,
    a: Seq<T>,
    b: Seq<T>,
    n: int,
    k: int,
    i: int,
    j: int,
    pc: int,
    kb: int,
)
    requires
        0 <= kb,
        forall|p: int| 0 <= p < kb ==> #[trigger] ap[ao + p * w + r] == a[i * k + (pc + p)],
        forall|p: int| 0 <= p < kb ==> #[trigger] bp[bo + p * w + s] == b[(pc + p) * n + j],
    ensures
        panel_fma(ap, ao, bp, bo, w, r, s, kb) == range_fma(a, b, n, k, i, j, pc, kb),
    decreases kb,
{
    if kb > 0 {
        lemma_packed_fma(ap, ao, bp, bo, w, r, s, a, b, n, k, i, j, pc, kb - 1);
        assert(ap[ao + (kb - 1) * w + r] == a[i * k + (pc + (kb - 1))]);
        assert(bp[bo + (kb - 1) * w + s] == b[(pc + (kb - 1)) * n + j]);
    }
}

/// The packed block of `A` at row `ic` and column `pc`.
spec fn holds_a<T: Scalar>(ap: Seq<T>, a: Seq<T>, k: int, ic: int, mb: int, pc: int, kb: int) -> bool {
    forall|q: int, p: int, r: int|
        0 <= q && 8 * q + 8 <= mb && 0 <= p < kb && 0 <= r < 8 ==> #[trigger] ap[4096 * q + (8 * p
            + r)] == a[(ic + 8 * q + r) * k + (pc + p)]
}

/// The packed block of `B` at row `pc` and column `jc`.
spec fn holds_b<T: Scalar>(bp: Seq<T>, b: Seq<T>, n: int, jc: int, nb: int, pc: int, kb: int) -> bool {
    forall|q: int, p: int, r: int|
        0 <= q && 8 * q + 8 <= nb && 0 <= p < kb && 0 <= r < 8 ==> #[trigger] bp[4096 * q + (8 * p
            + r)] == b[(pc + p) * n + (jc + 8 * q + r)]
}

/// Applies the kernel to every tile of a block of `C`.
fn block_product<T: Scalar>(
    ap: &Vec<T>,
    bp: &Vec<T>,
    c: &mut [T],
    n: usize,
    ic: usize,
    mb: usize,
    jc: usize,
    nb: usize,
    kb: usize,
    Ghost(a): Ghost<Seq<T>>,
    Ghost(b): Ghost<Seq<T>>,
    Ghost(k): Ghost<int>,
    Ghost(pc): Ghost<int>,
)
    requires
        mb <= MC,
        nb <= NC,
        kb <= KC,
        mb % 8 == 0,
        nb % 8 == 0,
        jc + nb <= n,
        (ic + mb) * n <= old(c).len(),
        0 < n,
        ap@.len() == 65536,
        bp@.len() == 524288,
        holds_a(ap@, a, k, ic as int, mb as int, pc, kb as int),
        holds_b(bp@, b, n as int, jc as int, nb as int, pc, kb as int),
    ensures
        block_grown(
            final(c)@,
            old(c)@,
            a,
            b,
            n as int,
            k,
            ic as int,
            ic + mb,
            jc as int,
            jc + nb,
            pc,
            kb as int,
        ),
{
    let mut jr: usize = 0;
    while jr < nb
        invariant
            mb <= MC,
            nb <= NC,
            kb <= KC,
            mb % 8 == 0,
            nb % 8 == 0,
            jr % 8 == 0,
            jr <= nb,
            jc + nb <= n,
            (ic + mb) * n <= old(c).len(),
            0 < n,
            ap@.len() == 65536,
            bp@.len() == 524288,
            holds_a(ap@, a, k, ic as int, mb as int, pc, kb as int),
            holds_b(bp@, b, n as int, jc as int, nb as int, pc, kb as int),
            c@.len() == old(c)@.len(),
            block_grown(
                c@,
                old(c)@,
                a,
                b,
                n as int,
                k,
                ic as int,
                ic + mb,
                jc as int,
                jc + jr,
                pc,
                kb as int,
            ),
        decreases nb - jr,
    {
        let ghost before = c@;
        let mut ir: usize = 0;
        while ir < mb
            invariant
                mb <= MC,
                nb <= NC,
                kb <= KC,
                mb % 8 == 0,
                nb % 8 == 0,
                jr % 8 == 0,
                ir % 8 == 0,
                jr < nb,
                ir <= mb,
                jc + nb <= n,
                (ic + mb) * n <= old(c).len(),
                0 < n,
                ap@.len() == 65536,
                bp@.len() == 524288,
                holds_a(ap@, a, k, ic as int, mb as int, pc, kb as int),
                holds_b(bp@, b, n as int, jc as int, nb as int, pc, kb as int),
                c@.len() == old(c)@.len(),
                block_grown(
                    c@,
                    before,
                    a,
                    b,
                    n as int,
                    k,
                    ic as int,
                    ic + ir,
                    jc + jr,
                    jc + jr + 8,
                    pc,
                    kb as int,
                ),
            decreases mb - ir,
        {
            let ghost last = c@;
            let (qa, qb): (usize, usize) = (ir / MR, jr / NR);
            proof {
                assert(ic + mb <= (ic + mb) * n) by (nonlinear_arith)
                    requires
                        0 <= ic + mb,
                        1 <= n,
                ;
            }
            let (i0, j0): (usize, usize) = (ic + ir, jc + jr);
            proof {
                assert(c@.len() == old(c).len());
                assert((i0 + 8 - 1) * n + n <= (ic + mb) * n) by (nonlinear_arith)
                    requires
                        i0 + 8 <= ic + mb,
                        0 < n,
                ;
            }
            kernel_8x8(kb, ap, qa * PANEL, bp, qb * PANEL, c, i0, j0, n);
            proof {
                assert forall|x: int| 0 <= x < c@.len() implies #[trigger] c@[x] == if ic <= x / (
                n as int) && x / (n as int) < ic + ir + 8 && j0 <= x % (n as int) && x % (n as int)
                    < j0 + 8 {
                    before[x].plus_spec(
                        range_fma(
                            a,
                            b,
                            n as int,
                            k,
                            x / (n as int),
                            x % (n as int),
                            pc,
                            kb as int,
                        ),
                    )
                } else {
                    before[x]
                } by {
                    assert(last[x] == if ic <= x / (n as int) && x / (n as int) < ic + ir && j0 <= x
                        % (n as int) && x % (n as int) < j0 + 8 {
                        before[x].plus_spec(
                            range_fma(
                                a,
                                b,
                                n as int,
                                k,
                                x / (n as int),
                                x % (n as int),
                                pc,
                                kb as int,
                            ),
                        )
                    } else {
                        before[x]
                    });
                    if in_tile(i0 as int, j0 as int, 8, n as int, x) {
                        let (r, s) = (x / (n as int) - i0, x % (n as int) - j0);
                        lemma_block_fma(
                            ap@,
                            bp@,
                            a,
                            b,
                            n as int,
                            k,
                            ic as int,
                            mb as int,
                            jc as int,
                            nb as int,
                            pc,
                            kb as int,
                            qa as int,
                            r,
                            qb as int,
                            s,
                        );
                    }
                }
            }
            ir = ir + MR;
        }
        assert forall|x: int| 0 <= x < c@.len() implies #[trigger] c@[x] == if ic <= x / (n as int)
            && x / (n as int) < ic + mb && jc <= x % (n as int) && x % (n as int) < jc + jr + 8 {
            old(c)@[x].plus_spec(
                range_fma(a, b, n as int, k, x / (n as int), x % (n as int), pc, kb as int),
            )
        } else {
            old(c)@[x]
        } by {
            assert(before[x] == if ic <= x / (n as int) && x / (n as int) < ic + mb && jc <= x % (
            n as int) && x % (n as int) < jc + jr {
                old(c)@[x].plus_spec(
                    range_fma(a, b, n as int, k, x / (n as int), x % (n as int), pc, kb as int),
                )
            } else {
                old(c)@[x]
            });
        }
        jr = jr + NR;
    }
}

/// The kernel's cell is the product's block of terms.
proof fn lemma_block_fma<T: Scalar>(
    ap: Seq<T>,
    bp: Seq<T>,
    a: Seq<T>,
    b: Seq<T>,
    n: int,
    k: int,
    ic: int,
    mb: int,
    jc: int,
    nb: int,
    pc: int,
    kb: int,
    qa: int,
    r: int,
    qb: int,
    s: int,
)
    requires
        0 <= qa,
        8 * qa + 8 <= mb,
        0 <= qb,
        8 * qb + 8 <= nb,
        0 <= r < 8,
        0 <= s < 8,
        0 <= kb,
        holds_a(ap, a, k, ic, mb, pc, kb),
        holds_b(bp, b, n, jc, nb, pc, kb),
    ensures
        panel_fma(ap, qa * 4096, bp, qb * 4096, 8, r, s, kb) == range_fma(
            a,
            b,
            n,
            k,
            ic + 8 * qa + r,
            jc + 8 * qb + s,
            pc,
            kb,
        ),
{
    let (i, j) = (ic + 8 * qa + r, jc + 8 * qb + s);
    assert forall|p: int| 0 <= p < kb implies #[trigger] ap[qa * 4096 + p * 8 + r] == a[i * k + (pc
        + p)] by {
        assert(ap[4096 * qa + (8 * p + r)] == a[(ic + 8 * qa + r) * k + (pc + p)]);
    }
    assert forall|p: int| 0 <= p < kb implies #[trigger] bp[qb * 4096 + p * 8 + s] == b[(pc + p) * n
        + j] by {
        assert(bp[4096 * qb + (8 * p + s)] == b[(pc + p) * n + (jc + 8 * qb + s)]);
    }
    lemma_packed_fma(ap, qa * 4096, bp, qb * 4096, 8, r, s, a, b, n, k, i, j, pc, kb);
}

/// A buffer of `len` zeros.
fn zeros<T: Scalar>(len: usize) -> (v: Vec<T>)
    ensures
        v@.len() == len,
{
    let mut v: Vec<T> = Vec::new();
    for i in 0..len
        invariant
            v@.len() == i,
    {
        v.push(T::zero());
    }
    v
}

/// Packs the block of `B` at row `pc` and column `jc`.
fn load_b<T: Scalar>(b: &[T], n: usize, k: usize, pc: usize, kb: usize, jc: usize, nb: usize, bp: &mut Vec<
    T,
>)
    requires
        k * n <= b.len(),
        0 < nb <= NC,
        0 < kb <= KC,
        nb % 8 == 0,
        jc + nb <= n,
        pc + kb <= k,
        old(bp)@.len() == 524288,
    ensures
        final(bp)@.len() == 524288,
        holds_b(final(bp)@, b@, n as int, jc as int, nb as int, pc as int, kb as int),
{
    proof {
        assert(b@.len() == b.len());
        lemma_index(k as int, n as int, pc as int, jc as int);
        assert(pc * n + kb * n <= k * n) by (nonlinear_arith)
            requires
                pc + kb <= k,
                0 <= n,
        ;
        assert((kb - 1) * n + n == kb * n) by (nonlinear_arith);
        assert((nb - 1) * 1 == nb - 1);
        assert forall|q: int| 0 <= q && #[trigger] (q * 8) < nb && kb > 0 implies q * 4096 + kb * 8
            <= bp@.len() by {}
    }
    let off: usize = pc * n + jc;
    let src = slice_subrange(b, off, b.len());
    pack_b(src, n, kb, nb, bp);
    proof {
        assert forall|q: int, p: int, r: int|
            0 <= q && 8 * q + 8 <= nb && 0 <= p < kb && 0 <= r < 8 implies #[trigger] bp@[4096 * q
            + (8 * p + r)] == b@[(pc + p) * n + (jc + 8 * q + r)] by {
            let x = 4096 * q + (8 * p + r);
            lemma_slot(q, p, r, kb as int, 8, 4096);
            assert(in_panel(nb as int, kb as int, 8, 4096, x));
            assert(bp@[x] == lane(src@, 1, n as int, nb as int, 8, q, p, r));
            assert((pc + p) * n == pc * n + p * n) by (nonlinear_arith);
            assert(p * n + n <= kb * n && 0 <= p * n) by (nonlinear_arith)
                requires
                    0 <= p,
                    p + 1 <= kb,
                    0 <= n,
            ;
        }
    }
}

/// Packs the block of `A` at row `ic` and column `pc`.
fn load_a<T: Scalar>(a: &[T], m: usize, k: usize, ic: usize, mb: usize, pc: usize, kb: usize, ap: &mut Vec<
    T,
>)
    requires
        m * k <= a.len(),
        0 < mb <= MC,
        0 < kb <= KC,
        mb % 8 == 0,
        ic + mb <= m,
        pc + kb <= k,
        old(ap)@.len() == 65536,
    ensures
        final(ap)@.len() == 65536,
        holds_a(final(ap)@, a@, k as int, ic as int, mb as int, pc as int, kb as int),
{
    proof {
        assert(a@.len() == a.len());
        lemma_index(m as int, k as int, ic as int, pc as int);
        assert(ic * k + mb * k <= m * k) by (nonlinear_arith)
            requires
                ic + mb <= m,
                0 <= k,
        ;
        assert((mb - 1) * k + k == mb * k) by (nonlinear_arith);
        assert((kb - 1) * 1 == kb - 1);
        assert forall|q: int| 0 <= q && #[trigger] (q * 8) < mb && kb > 0 implies q * 4096 + kb * 8
            <= ap@.len() by {}
    }
    let off: usize = ic * k + pc;
    let src = slice_subrange(a, off, a.len());
    pack_a(src, k, mb, kb, ap);
    proof {
        assert forall|q: int, p: int, r: int|
            0 <= q && 8 * q + 8 <= mb && 0 <= p < kb && 0 <= r < 8 implies #[trigger] ap@[4096 * q
            + (8 * p + r)] == a@[(ic + 8 * q + r) * k + (pc + p)] by {
            let x = 4096 * q + (8 * p + r);
            lemma_slot(q, p, r, kb as int, 8, 4096);
            assert(in_panel(mb as int, kb as int, 8, 4096, x));
            assert(ap@[x] == lane(src@, k as int, 1, mb as int, 8, q, p, r));
            let i = 8 * q + r;
            assert((ic + i) * k == ic * k + i * k) by (nonlinear_arith);
            assert(i * k + k <= mb * k && 0 <= i * k) by (nonlinear_arith)
                requires
                    0 <= i,
                    i + 1 <= mb,
                    0 <= k,
            ;
        }
    }
}

/// Grows the rows `row0 .. row1` of `C`, in the columns `jc .. jc + nb`, by the
/// `kb` terms from `pc` on.
fn panel_product<T: Scalar>(
    a: &[T],
    bp: &Vec<T>,
    c: &mut [T],
    ap: &mut Vec<T>,
    m: usize,
    n: usize,
    k: usize,
    row0: usize,
    row1: usize,
    jc: usize,
    nb: usize,
    pc: usize,
    kb: usize,
    Ghost(b): Ghost<Seq<T>>,
)
    requires
        m * k <= a.len(),
        m * n <= old(c).len(),
        row0 <= row1 <= m,
        (row1 - row0) % 8 == 0,
        0 < nb <= NC,
        nb % 8 == 0,
        jc + nb <= n,
        0 < kb <= KC,
        pc + kb <= k,
        old(ap)@.len() == 65536,
        bp@.len() == 524288,
        holds_b(bp@, b, n as int, jc as int, nb as int, pc as int, kb as int),
    ensures
        final(ap)@.len() == 65536,
        block_grown(
            final(c)@,
            old(c)@,
            a@,
            b,
            n as int,
            k as int,
            row0 as int,
            row1 as int,
            jc as int,
            jc + nb,
            pc as int,
            kb as int,
        ),
{
    let mut ic: usize = row0;
    while ic < row1
        invariant
            m * k <= a.len(),
            m * n <= old(c).len(),
            old(c)@.len() == old(c).len(),
            row0 <= ic <= row1 <= m,
            (row1 - row0) % 8 == 0,
            (ic - row0) % 8 == 0,
            0 < nb <= NC,
            nb % 8 == 0,
            jc + nb <= n,
            0 < kb <= KC,
            pc + kb <= k,
            ap@.len() == 65536,
            bp@.len() == 524288,
            holds_b(bp@, b, n as int, jc as int, nb as int, pc as int, kb as int),
            c@.len() == old(c)@.len(),
            block_grown(
                c@,
                old(c)@,
                a@,
                b,
                n as int,
                k as int,
                row0 as int,
                ic as int,
                jc as int,
                jc + nb,
                pc as int,
                kb as int,
            ),
        decreases row1 - ic,
    {
        let mb: usize = if MC < row1 - ic {
            MC
        } else {
            row1 - ic
        };
        load_a(a, m, k, ic, mb, pc, kb, ap);
        let ghost before = c@;
        proof {
            assert((ic + mb) * n <= m * n) by (nonlinear_arith)
                requires
                    ic + mb <= m,
                    0 <= n,
            ;
        }
        block_product(
            ap,
            bp,
            c,
            n,
            ic,
            mb,
            jc,
            nb,
            kb,
            Ghost(a@),
            Ghost(b),
            Ghost(k as int),
            Ghost(pc as int),
        );
        assert forall|x: int| 0 <= x < c@.len() implies #[trigger] c@[x] == if row0 <= x / (
        n as int) && x / (n as int) < ic + mb && jc <= x % (n as int) && x % (n as int) < jc + nb {
            old(c)@[x].plus_spec(
                range_fma(
                    a@,
                    b,
                    n as int,
                    k as int,
                    x / (n as int),
                    x % (n as int),
                    pc as int,
                    kb as int,
                ),
            )
        } else {
            old(c)@[x]
        } by {
            assert(before[x] == if row0 <= x / (n as int) && x / (n as int) < ic && jc <= x % (
            n as int) && x % (n as int) < jc + nb {
                old(c)@[x].plus_spec(
                    range_fma(
                        a@,
                        b,
                        n as int,
                        k as int,
                        x / (n as int),
                        x % (n as int),
                        pc as int,
                        kb as int,
                    ),
                )
            } else {
                old(c)@[x]
            });
        }
        ic = ic + mb;
    }
}

/// In rows `row0 .. row1` and columns `jlo .. jhi`, `c` is `before` plus the first
/// `t` blocks of `kc` terms; elsewhere it is as `before`.
pub open spec fn has_blocks<T: Scalar>(
    c: Seq<T>,
    before: Seq<T>,
    a: Seq<T>,
    b: Seq<T>,
    n: int,
    k: int,
    kc: int,
    row0: int,
    row1: int,
    jlo: int,
    jhi: int,
    t: int,
) -> bool {
    &&& c.len() == before.len()
    &&& forall|x: int|
        0 <= x < c.len() ==> #[trigger] c[x] == if row0 <= x / n < row1 && jlo <= x % n < jhi {
            blocks_sum(before[x], a, b, n, k, kc, x / n, x % n, t)
        } else {
            before[x]
        }
}

/// Grows the rows `row0 .. row1` of `C`, in the columns `jc .. jc + nb`, by all
/// `k` terms, in blocks of `KC`.
fn column_product<T: Scalar>(
    a: &[T],
    b: &[T],
    c: &mut [T],
    ap: &mut Vec<T>,
    bp: &mut Vec<T>,
    m: usize,
    n: usize,
    k: usize,
    row0: usize,
    row1: usize,
    jc: usize,
    nb: usize,
)
    requires
        shapes(
            a.len() as int,
            b.len() as int,
            old(c).len() as int,
            m as int,
            n as int,
            k as int,
        ),
        row0 <= row1 <= m,
        (row1 - row0) % 8 == 0,
        0 < nb <= NC,
        nb % 8 == 0,
        jc + nb <= n,
        old(ap)@.len() == 65536,
        old(bp)@.len() == 524288,
    ensures
        final(ap)@.len() == 65536,
        final(bp)@.len() == 524288,
        has_blocks(
            final(c)@,
            old(c)@,
            a@,
            b@,
            n as int,
            k as int,
            512,
            row0 as int,
            row1 as int,
            jc as int,
            jc + nb,
            ceil_div(k as int, 512),
        ),
{
    let mut pc: usize = 0;
    let ghost mut t: int = 0;
    while pc < k
        invariant
            shapes(
                a.len() as int,
                b.len() as int,
                old(c).len() as int,
                m as int,
                n as int,
                k as int,
            ),
            old(c)@.len() == old(c).len(),
            row0 <= row1 <= m,
            (row1 - row0) % 8 == 0,
            0 < nb <= NC,
            nb % 8 == 0,
            jc + nb <= n,
            ap@.len() == 65536,
            bp@.len() == 524288,
            c@.len() == old(c)@.len(),
            0 <= t,
            pc <= k,
            pc < k ==> pc == 512 * t,
            pc == k ==> t == ceil_div(k as int, 512),
            has_blocks(
                c@,
                old(c)@,
                a@,
                b@,
                n as int,
                k as int,
                512,
                row0 as int,
                row1 as int,
                jc as int,
                jc + nb,
                t,
            ),
        decreases k - pc,
    {
        let kb: usize = if KC < k - pc {
            KC
        } else {
            k - pc
        };
        load_b(b, n, k, pc, kb, jc, nb, bp);
        let ghost before = c@;
        panel_product(a, bp, c, ap, m, n, k, row0, row1, jc, nb, pc, kb, Ghost(b@));
        assert forall|x: int| 0 <= x < c@.len() implies #[trigger] c@[x] == if row0 <= x / (
        n as int) && x / (n as int) < row1 && jc <= x % (n as int) && x % (n as int) < jc + nb {
            blocks_sum(
                old(c)@[x],
                a@,
                b@,
                n as int,
                k as int,
                512,
                x / (n as int),
                x % (n as int),
                t + 1,
            )
        } else {
            old(c)@[x]
        } by {
            assert(before[x] == if row0 <= x / (n as int) && x / (n as int) < row1 && jc <= x % (
            n as int) && x % (n as int) < jc + nb {
                blocks_sum(
                    old(c)@[x],
                    a@,
                    b@,
                    n as int,
                    k as int,
                    512,
                    x / (n as int),
                    x % (n as int),
                    t,
                )
            } else {
                old(c)@[x]
            });
        }
        proof {
            t = t + 1;
        }
        pc = pc + kb;
    }
}

/// Grows the rows `row0 .. row1` of `C` by their part of `A * B`, with packed
/// panels. The number of rows and of columns are multiples of eight.
pub fn gemm_rows<T: Scalar>(
    a: &[T],
    b: &[T],
    c: &mut [T],
    m: usize,
    n: usize,
    k: usize,
    row0: usize,
    row1: usize,
)
    requires
        shapes(
            a.len() as int,
            b.len() as int,
            old(c).len() as int,
            m as int,
            n as int,
            k as int,
        ),
        row0 <= row1 <= m,
        (row1 - row0) % 8 == 0,
        n % 8 == 0,
    ensures
        rows_grown(
            final(c)@,
            old(c)@,
            a@,
            b@,
            n as int,
            k as int,
            512,
            row0 as int,
            row1 as int,
        ),
{
    let mut ap: Vec<T> = zeros(65536);
    let mut bp: Vec<T> = zeros(524288);
    let mut jc: usize = 0;
    while jc < n
        invariant
            shapes(
                a.len() as int,
                b.len() as int,
                old(c).len() as int,
                m as int,
                n as int,
                k as int,
            ),
            old(c)@.len() == old(c).len(),
            row0 <= row1 <= m,
            (row1 - row0) % 8 == 0,
            n % 8 == 0,
            jc % 8 == 0,
            jc <= n,
            ap@.len() == 65536,
            bp@.len() == 524288,
            c@.len() == old(c)@.len(),
            has_blocks(
                c@,
                old(c)@,
                a@,
                b@,
                n as int,
                k as int,
                512,
                row0 as int,
                row1 as int,
                0,
                jc as int,
                ceil_div(k as int, 512),
            ),
        decreases n - jc,
    {
        let nb: usize = if NC < n - jc {
            NC
        } else {
            n - jc
        };
        let ghost before = c@;
        column_product(a, b, c, &mut ap, &mut bp, m, n, k, row0, row1, jc, nb);
        assert forall|x: int| 0 <= x < c@.len() implies #[trigger] c@[x] == if row0 <= x / (
        n as int) && x / (n as int) < row1 && 0 <= x % (n as int) && x % (n as int) < jc + nb {
            blocks_sum(
                old(c)@[x],
                a@,
                b@,
                n as int,
                k as int,
                512,
                x / (n as int),
                x % (n as int),
                ceil_div(k as int, 512),
            )
        } else {
            old(c)@[x]
        } by {
            lemma_rows_of(n as int, m as int, x);
            assert(before[x] == if row0 <= x / (n as int) && x / (n as int) < row1 && 0 <= x % (
            n as int) && x % (n as int) < jc {
                blocks_sum(
                    old(c)@[x],
                    a@,
                    b@,
                    n as int,
                    k as int,
                    512,
                    x / (n as int),
                    x % (n as int),
                    ceil_div(k as int, 512),
                )
            } else {
                old(c)@[x]
            });
        }
        jc = jc + nb;
    }
    proof {
        if n > 0 {
            assert forall|x: int| 0 <= x < c@.len() implies 0 <= x % (n as int) && #[trigger] (x % (
            n as int)) < n by {
                lemma_rows_of(n as int, m as int, x);
            }
        } else {
            assert forall|x: int| 0 <= x < c@.len() implies #[trigger] c@[x] == old(c)@[x] by {}
        }
    }
}

/// Rows `row0 .. row1` of `c` are `before` plus their part of the product, in
/// blocks of `kc` terms; the other rows are as `before`.
pub open spec fn rows_grown<T: Scalar>(
    c: Seq<T>,
    before: Seq<T>,
    a: Seq<T>,
    b: Seq<T>,
    n: int,
    k: int,
    kc: int,
    row0: int,
    row1: int,
) -> bool {
    &&& c.len() == before.len()
    &&& forall|x: int|
        0 <= x < c.len() ==> #[trigger] c[x] == if n > 0 && row0 <= x / n < row1 {
            blocks_sum(before[x], a, b, n, k, kc, x / n, x % n, ceil_div(k, kc))
        } else {
            before[x]
        }
}

/// `c` is the product, summed in blocks of `kc` terms, and zero beyond it.
pub open spec fn is_packed_product<T: Scalar>(
    c: Seq<T>,
    a: Seq<T>,
    b: Seq<T>,
    m: int,
    n: int,
    k: int,
    kc: int,
) -> bool {
    forall|x: int|
        0 <= x < c.len() ==> #[trigger] c[x] == if x < m * n {
            blocks_sum(T::zero_spec(), a, b, n, k, kc, x / n, x % n, ceil_div(k, kc))
        } else {
            T::zero_spec()
        }
}

/// A product is one matrix: however the rows are shared among workers, each way
/// leaves what one worker leaves.
pub proof fn products_agree<T: Scalar>(
    c: Seq<T>,
    e: Seq<T>,
    a: Seq<T>,
    b: Seq<T>,
    m: int,
    n: int,
    k: int,
    kc: int,
)
    requires
        is_packed_product(c, a, b, m, n, k, kc),
        is_packed_product(e, a, b, m, n, k, kc),
        c.len() == e.len(),
    ensures
        c == e,
{
    assert(c =~= e);
}

/// Rows that grew out of zeros, all of them, are the product.
pub proof fn lemma_all_rows<T: Scalar>(
    c: Seq<T>,
    before: Seq<T>,
    a: Seq<T>,
    b: Seq<T>,
    m: int,
    n: int,
    k: int,
    kc: int,
)
    requires
        0 <= m,
        0 <= n,
        rows_grown(c, before, a, b, n, k, kc, 0, m),
        forall|x: int| 0 <= x < before.len() ==> #[trigger] before[x] == T::zero_spec(),
    ensures
        is_packed_product(c, a, b, m, n, k, kc),
{
    assert forall|x: int| 0 <= x < c.len() implies #[trigger] c[x] == if x < m * n {
        blocks_sum(T::zero_spec(), a, b, n, k, kc, x / n, x % n, ceil_div(k, kc))
    } else {
        T::zero_spec()
    } by {
        assert(before[x] == T::zero_spec());
        if n > 0 {
            lemma_rows_of(n, m, x);
        } else {
            assert(m * n == 0) by (nonlinear_arith)
                requires
                    n == 0,
            ;
        }
    }
}

/// The packed product. The number of rows and of columns are multiples of eight.
/// Elements beyond the product become zero.
pub fn gemm<T: Scalar>(a: &[T], b: &[T], c: &mut [T], m: usize, n: usize, k: usize)
    requires
        shapes(
            a.len() as int,
            b.len() as int,
            old(c).len() as int,
            m as int,
            n as int,
            k as int,
        ),
        m % 8 == 0,
        n % 8 == 0,
    ensures
        final(c)@.len() == old(c)@.len(),
        is_packed_product(final(c)@, a@, b@, m as int, n as int, k as int, 512),
{
    assert(c@.len() == c.len());
    fill_zero(c);
    assert(c@.len() == c.len());
    let ghost before = c@;
    gemm_rows(a, b, c, m, n, k, 0, m);
    proof {
        lemma_all_rows(c@, before, a@, b@, m as int, n as int, k as int, 512);
    }
}

/// Rows of a worker's band: an equal share, rounded up to whole tiles.
pub open spec fn band_rows(m: int, workers: int) -> int {
    round_up(ceil_div(m, workers), 8)
}

proof fn lemma_band_rows(m: int, workers: int)
    requires
        0 <= m,
        0 < workers,
    ensures
        band_rows(m, workers) % 8 == 0,
        m > 0 ==> band_rows(m, workers) > 0,
        m <= band_rows(m, workers) * workers < m + 8 * workers,
{
    let q = ceil_div(m, workers);
    lemma_ceil_div(m, workers);
    lemma_ceil_div(q, 8);
    let size = band_rows(m, workers);
    assert(workers * q <= size * workers && size * workers < workers * q + 7 * workers + 1)
        by (nonlinear_arith)
        requires
            q <= size < q + 8,
            workers > 0,
    ;
}

/// The band of rows of worker `t`, or none where the rows have run out before it.
pub fn row_band(m: usize, workers: usize, t: usize) -> (r: Option<(usize, usize)>)
    requires
        t < workers,
    ensures
        ({
            let size = band_rows(m as int, workers as int);
            match r {
                None => t * size >= m,
                Some((a, b)) => t * size < m && a == run_start(m as int, size, t as int) && b
                    == run_start(m as int, size, t + 1),
            }
        }),
        r matches Some((a, b)) ==> a < b <= m && a % 8 == 0 && (b % 8 == 0 || b == m),
{
    let q: usize = div_up(m, workers);
    let (tiles, each): (usize, usize) = (div_up(m, MR), div_up(q, MR));
    proof {
        lemma_ceil_div(m as int, workers as int);
        let size = band_rows(m as int, workers as int);
        assert(t * size == 8 * (t * each) && (t + 1) * size == 8 * ((t + 1) * each))
            by (nonlinear_arith)
            requires
                size == each * 8,
        ;
    }
    match run(tiles, each, t) {
        None => None,
        Some((a, b)) => Some(
            (
                a * MR,
                if b < tiles {
                    b * MR
                } else {
                    m
                },
            ),
        ),
    }
}

/// Every row is in exactly one worker's band.
pub proof fn bands_cover(m: int, workers: int, i: int) -> (t: int)
    requires
        0 <= i < m,
        0 < workers,
    ensures
        0 <= t < workers,
        crate::partition::in_run(m, band_rows(m, workers), t, i),
        forall|u: int|
            #[trigger] crate::partition::in_run(m, band_rows(m, workers), u, i) ==> u == t,
{
    lemma_band_rows(m, workers);
    crate::partition::runs_cover(m, band_rows(m, workers), workers, i)
}

/// The packed product with the rows of `C` split into bands of whole tiles, one
/// for each of `nthreads` workers; here the bands are computed one after another.
/// Bands are disjoint, so that the order makes no difference. The number of rows
/// and of columns are multiples of eight. Elements beyond the product become zero.
pub fn gemm_threaded<T: Scalar>(
    a: &[T],
    b: &[T],
    c: &mut [T],
    m: usize,
    n: usize,
    k: usize,
    nthreads: usize,
)
    requires
        shapes(
            a.len() as int,
            b.len() as int,
            old(c).len() as int,
            m as int,
            n as int,
            k as int,
        ),
        m % 8 == 0,
        n % 8 == 0,
        0 < nthreads,
    ensures
        final(c)@.len() == old(c)@.len(),
        is_packed_product(final(c)@, a@, b@, m as int, n as int, k as int, 512),
{
    assert(c@.len() == c.len());
    fill_zero(c);
    let ghost before = c@;
    let ghost size = band_rows(m as int, nthreads as int);
    let mut t: usize = 0;
    proof {
        lemma_band_rows(m as int, nthreads as int);
        assert(0 * size == 0);
    }
    while t < nthreads
        invariant_except_break
            t <= nthreads,
        invariant
            shapes(
                a.len() as int,
                b.len() as int,
                old(c).len() as int,
                m as int,
                n as int,
                k as int,
            ),
            old(c)@.len() == old(c).len(),
            m % 8 == 0,
            n % 8 == 0,
            0 < nthreads,
                size == band_rows(m as int, nthreads as int),
            before.len() == old(c)@.len(),
            c@.len() == before.len(),
            0 <= run_start(m as int, size, t as int),
            rows_grown(
                c@,
                before,
                a@,
                b@,
                n as int,
                k as int,
                512,
                0,
                run_start(m as int, size, t as int),
            ),
        ensures
            t == nthreads || t * size >= m,
        decreases nthreads - t,
    {
        match row_band(m, nthreads, t) {
            None => {
                break ;
            },
            Some((row0, row1)) => {
                let ghost last = c@;
                gemm_rows(a, b, c, m, n, k, row0, row1);
                proof {
                    assert forall|x: int| 0 <= x < c@.len() implies #[trigger] c@[x] == if n > 0 && 0
                        <= x / (n as int) && x / (n as int) < row1 {
                        blocks_sum(
                            before[x],
                            a@,
                            b@,
                            n as int,
                            k as int,
                            512,
                            x / (n as int),
                            x % (n as int),
                            ceil_div(k as int, 512),
                        )
                    } else {
                        before[x]
                    } by {
                        if n > 0 {
                            lemma_rows_of(n as int, m as int, x);
                        }
                        assert(last[x] == if n > 0 && 0 <= x / (n as int) && x / (n as int) < row0 {
                            blocks_sum(
                                before[x],
                                a@,
                                b@,
                                n as int,
                                k as int,
                                512,
                                x / (n as int),
                                x % (n as int),
                                ceil_div(k as int, 512),
                            )
                        } else {
                            before[x]
                        });
                    }
                }
            },
        }
        t = t + 1;
    }
    proof {
        lemma_band_rows(m as int, nthreads as int);
        assert(nthreads * size == size * nthreads) by (nonlinear_arith);
        lemma_all_rows(c@, before, a@, b@, m as int, n as int, k as int, 512);
    }
}

// ------------------------------------------------------------------------ laws

/// Term `p` of row `i` of `A` times column `j` of `B`, where `v` says which integer a
/// number stands for.
pub open spec fn product_term<T: Scalar>(
    v: spec_fn(T) -> int,
    a: Seq<T>,
    b: Seq<T>,
    n: int,
    k: int,
    i: int,
    j: int,
) -> spec_fn(int) -> int {
    |p: int| v(a[i * k + p]) * v(b[p * n + j])
}

/// Row `i` of `A` times column `j` of `B`.
pub open spec fn product<T: Scalar>(
    v: spec_fn(T) -> int,
    a: Seq<T>,
    b: Seq<T>,
    n: int,
    k: int,
    i: int,
    j: int,
) -> int {
    sum(k, product_term(v, a, b, n, k, i, j))
}

proof fn lemma_row_dot<T: Scalar>(
    v: spec_fn(T) -> int,
    md: int,
    a: Seq<T>,
    b: Seq<T>,
    n: int,
    k: int,
    i: int,
    j: int,
    p: int,
)
    requires
        is_exact(v, md),
        0 <= p,
    ensures
        congruent(
            v(row_dot(a, b, n, k, i, j, p)),
            sum(p, product_term(v, a, b, n, k, i, j)),
            md,
        ),
    decreases p,
{
    if p > 0 {
        let f = product_term(v, a, b, n, k, i, j);
        lemma_row_dot(v, md, a, b, n, k, i, j, p - 1);
        let (s, x, y) = (
            row_dot(a, b, n, k, i, j, p - 1),
            a[i * k + (p - 1)],
            b[(p - 1) * n + j],
        );
        lemma_congruent_same(v(x) * v(y), md);
        lemma_congruent_plus(v(s), sum(p - 1, f), v(x) * v(y), v(x) * v(y), md);
        lemma_congruent_through(
            v(s.mul_plus_spec(x, y)),
            v(s) + v(x) * v(y),
            sum(p - 1, f) + v(x) * v(y),
            md,
        );
    }
}

proof fn lemma_range_fma<T: Scalar>(
    v: spec_fn(T) -> int,
    md: int,
    a: Seq<T>,
    b: Seq<T>,
    n: int,
    k: int,
    i: int,
    j: int,
    p0: int,
    count: int,
)
    requires
        is_exact(v, md),
        0 <= p0,
        0 <= count,
    ensures
        congruent(
            v(range_fma(a, b, n, k, i, j, p0, count)),
            sum(p0 + count, product_term(v, a, b, n, k, i, j)) - sum(
                p0,
                product_term(v, a, b, n, k, i, j),
            ),
            md,
        ),
    decreases count,
{
    let f = product_term(v, a, b, n, k, i, j);
    if count > 0 {
        let p = p0 + count - 1;
        lemma_range_fma(v, md, a, b, n, k, i, j, p0, count - 1);
        let (s, x, y) = (
            range_fma(a, b, n, k, i, j, p0, count - 1),
            a[i * k + (p0 + count - 1)],
            b[(p0 + count - 1) * n + j],
        );
        let before = sum(p, f) - sum(p0, f);
        assert(p0 + (count - 1) == p);
        lemma_congruent_same(v(x) * v(y), md);
        lemma_congruent_plus(v(s), before, v(x) * v(y), v(x) * v(y), md);
        lemma_congruent_through(
            v(s.fma_spec(x, y)),
            v(s) + v(x) * v(y),
            before + v(x) * v(y),
            md,
        );
        assert(f(p) == v(x) * v(y));
        assert(sum(p + 1, f) == sum(p, f) + f(p));
    }
}

proof fn lemma_blocks_sum<T: Scalar>(
    v: spec_fn(T) -> int,
    md: int,
    start: T,
    a: Seq<T>,
    b: Seq<T>,
    n: int,
    k: int,
    kc: int,
    i: int,
    j: int,
    t: int,
)
    requires
        is_exact(v, md),
        0 < kc,
        0 <= t,
        t > 0 ==> kc * (t - 1) <= k,
        0 <= k,
    ensures
        congruent(
            v(blocks_sum(start, a, b, n, k, kc, i, j, t)),
            v(start) + sum(
                if kc * t < k {
                    kc * t
                } else {
                    k
                },
                product_term(v, a, b, n, k, i, j),
            ),
            md,
        ),
    decreases t,
{
    let f = product_term(v, a, b, n, k, i, j);
    if t > 0 {
        let p0 = kc * (t - 1);
        assert(p0 >= 0 && kc * t == p0 + kc) by (nonlinear_arith)
            requires
                p0 == kc * (t - 1),
                0 < kc,
                t >= 1,
        ;
        if t > 1 {
            assert(kc * (t - 1 - 1) <= p0) by (nonlinear_arith)
                requires
                    p0 == kc * (t - 1),
                    0 < kc,
            ;
        }
        lemma_blocks_sum(v, md, start, a, b, n, k, kc, i, j, t - 1);
        let count = if kc < k - p0 {
            kc
        } else {
            k - p0
        };
        lemma_range_fma(v, md, a, b, n, k, i, j, p0, count);
        let (s, r) = (
            blocks_sum(start, a, b, n, k, kc, i, j, t - 1),
            range_fma(a, b, n, k, i, j, p0, count),
        );
        let (x, y) = (v(start) + sum(p0, f), sum(p0 + count, f) - sum(p0, f));
        lemma_congruent_plus(v(s), x, v(r), y, md);
        lemma_congruent_through(v(s.plus_spec(r)), v(s) + v(r), x + y, md);
    } else {
        assert(kc * 0 == 0);
        lemma_congruent_same(v(start), md);
    }
}

/// Every rung of the ladder computes the matrix product: on numbers that do not round,
/// the plain products and the packed products with any block of terms all stand for the
/// product's value. They so differ by rounding alone.
pub proof fn every_order_is_the_product<T: Scalar>(
    v: spec_fn(T) -> int,
    md: int,
    a: Seq<T>,
    b: Seq<T>,
    n: int,
    k: int,
    kc: int,
    i: int,
    j: int,
)
    requires
        is_exact(v, md),
        0 <= k,
        0 < kc,
    ensures
        congruent(v(row_dot(a, b, n, k, i, j, k)), product(v, a, b, n, k, i, j), md),
        congruent(
            v(blocks_sum(T::zero_spec(), a, b, n, k, kc, i, j, ceil_div(k, kc))),
            product(v, a, b, n, k, i, j),
            md,
        ),
{
    lemma_row_dot(v, md, a, b, n, k, i, j, k);
    lemma_ceil_div(k, kc);
    let t = ceil_div(k, kc);
    if t > 0 {
        assert(kc * (t - 1) <= k) by (nonlinear_arith)
            requires
                kc * t < k + kc,
        ;
    }
    lemma_blocks_sum(v, md, T::zero_spec(), a, b, n, k, kc, i, j, t);
    let (zero, whole) = (v(T::zero_spec()), product(v, a, b, n, k, i, j));
    lemma_congruent_same(whole, md);
    lemma_congruent_plus(zero, 0, whole, whole, md);
    lemma_congruent_through(
        v(blocks_sum(T::zero_spec(), a, b, n, k, kc, i, j, t)),
        zero + whole,
        whole,
        md,
    );
}

/// A plain product and a packed one, with any block of terms, have the same elements on
/// numbers that do not round.
pub proof fn ladder_agrees<T: Scalar>(
    v: spec_fn(T) -> int,
    md: int,
    c: Seq<T>,
    e: Seq<T>,
    a: Seq<T>,
    b: Seq<T>,
    m: int,
    n: int,
    k: int,
    kc: int,
    x: int,
)
    requires
        is_exact(v, md),
        is_product(c, a, b, m, n, k),
        is_packed_product(e, a, b, m, n, k, kc),
        0 <= k,
        0 < kc,
        0 <= x < c.len(),
        x < e.len(),
        x < m * n,
    ensures
        congruent(v(c[x]), product(v, a, b, n, k, x / n, x % n), md),
        congruent(v(e[x]), product(v, a, b, n, k, x / n, x % n), md),
        congruent(v(c[x]), v(e[x]), md),
{
    every_order_is_the_product(v, md, a, b, n, k, kc, x / n, x % n);
    let whole = product(v, a, b, n, k, x / n, x % n);
    lemma_congruent_flip(v(e[x]), whole, md);
    lemma_congruent_through(v(c[x]), whole, v(e[x]), md);
}

/// On 32-bit integers, every order gives the product's value, wrapped.
pub proof fn every_order_wraps_the_product(
    a: Seq<i32>,
    b: Seq<i32>,
    n: int,
    k: int,
    kc: int,
    i: int,
    j: int,
)
    requires
        0 <= k,
        0 < kc,
    ensures
        ({
            let whole = product(|x: i32| x as int, a, b, n, k, i, j);
            &&& row_dot(a, b, n, k, i, j, k) == wrap_i32(whole)
            &&& blocks_sum(0i32, a, b, n, k, kc, i, j, ceil_div(k, kc)) == wrap_i32(whole)
        }),
{
    let v = |x: i32| x as int;
    integers_are_exact();
    every_order_is_the_product(v, 0x1_0000_0000, a, b, n, k, kc, i, j);
    let whole = product(v, a, b, n, k, i, j);
    lemma_congruent_wraps(v(row_dot(a, b, n, k, i, j, k)), whole);
    lemma_congruent_wraps(v(blocks_sum(0i32, a, b, n, k, kc, i, j, ceil_div(k, kc))), whole);
}

/// A 32-bit integer that differs from another integer by a multiple of 2^32 is that
/// integer, wrapped.
proof fn lemma_congruent_wraps(x: int, y: int)
    requires
        congruent(x, y, 0x1_0000_0000),
        -0x8000_0000 <= x < 0x8000_0000,
    ensures
        x == wrap_i32(y),
{
    let q = choose|q: int| x - y == #[trigger] multiple(q, 0x1_0000_0000);
    lemma_wrap_multiple(y, q);
    lemma_wrap_small(x);
    assert(x == y + 0x1_0000_0000 * q);
}

} // verus!
