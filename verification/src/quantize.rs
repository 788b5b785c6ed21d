//! Numbers turned into 8-bit levels: the greatest magnitude of a run becomes the
//! level 127, and its scale is what a level stands for.
use crate::analytic::Analytic;
use crate::ideal::is_ideal;
use crate::ideal_levels::{levels_stand_for_their_run, stands_for};
use crate::tokenizer::le16;
use crate::q8::Q8Mat;
use crate::tensors::{bf16_run, bf16_value};
use vstd::arithmetic::mul::{
    lemma_mul_basics, lemma_mul_inequality, lemma_mul_is_distributive_add_other_way,
};
use vstd::prelude::*;

verus! {

/// The least magnitude that a run is taken to reach, 1e-12, in its single-precision
/// encoding: it keeps the scale of a run of zeros from being zero.
pub const LEAST_PEAK: u32 = 0x2b8c_bccc;

/// The greatest magnitude of the first `n` numbers from place `at` on.
pub open spec fn peak<S: Analytic>(x: Seq<S>, at: int, n: int) -> S
    decreases n,
{
    if n <= 0 {
        S::of_bits_spec(LEAST_PEAK)
    } else {
        peak(x, at, n - 1).larger_spec(x[at + n - 1].magnitude_spec())
    }
}

/// The scale of the `n` numbers from place `at` on.
pub open spec fn scale_of<S: Analytic>(x: Seq<S>, at: int, n: int) -> S {
    peak(x, at, n).over_spec(S::of_int_spec(127))
}

/// The level of a number at a scale.
pub open spec fn level_of<S: Analytic>(v: S, scale: S) -> i8 {
    v.over_spec(scale).level_spec()
}

/// The greatest magnitude of a run depends on the run alone.
pub proof fn lemma_peak_same<S: Analytic>(x: Seq<S>, y: Seq<S>, at: int, n: int)
    requires
        forall|i: int| at <= i < at + n ==> x[i] == y[i],
    ensures
        peak(x, at, n) == peak(y, at, n),
    decreases n,
{
    if n > 0 {
        lemma_peak_same(x, y, at, n - 1);
    }
}

/// All levels lie within 127 of zero.
pub open spec fn in_range(q: Seq<i8>) -> bool {
    forall|i: int| 0 <= i < q.len() ==> -127 <= #[trigger] q[i] <= 127
}

/// The scale of the `n` numbers from place `at` on.
pub fn run_scale<S: Analytic>(x: &[S], at: usize, n: usize) -> (r: S)
    requires
        at + n <= x.len(),
    ensures
        r == scale_of(x@, at as int, n as int),
{
    let mut top: S = S::of_bits(LEAST_PEAK);
    for i in 0..n
        invariant
            at + n <= x.len(),
            top == peak(x@, at as int, i as int),
    {
        top = top.larger(x[at + i].magnitude());
    }
    top.over(S::of_int(127))
}

/// The levels of the `n` numbers from place `at` on, with their scale.
pub fn quant_run<S: Analytic>(x: &[S], at: usize, n: usize) -> (r: (Vec<i8>, S))
    requires
        at + n <= x.len(),
    ensures
        r.1 == scale_of(x@, at as int, n as int),
        r.0@.len() == n,
        forall|i: int| 0 <= i < n ==> #[trigger] r.0@[i] == level_of(x@[at + i], r.1),
        in_range(r.0@),
        forall|v: spec_fn(S) -> real| #[trigger]
            is_ideal(v) ==> stands_for(v, r.0@, r.1, x@, at as int, n as int),
{
    let scale: S = run_scale(x, at, n);
    let mut q: Vec<i8> = Vec::new();
    for i in 0..n
        invariant
            at + n <= x.len(),
            q@.len() == i,
            forall|k: int| 0 <= k < i ==> #[trigger] q@[k] == level_of(x@[at + k], scale),
            in_range(q@),
    {
        q.push(x[at + i].over(scale).level());
    }
    proof {
        assert forall|v: spec_fn(S) -> real| #[trigger] is_ideal(v) implies stands_for(
            v,
            q@,
            scale,
            x@,
            at as int,
            n as int,
        ) by {
            levels_stand_for_their_run(v, q@, x@, at as int, n as int);
        }
    }
    (q, scale)
}

/// The level of number `i` of a vector that is cut into blocks of 32; there is
/// none beyond the last whole block.
pub open spec fn block_level<S: Analytic>(x: Seq<S>, i: int) -> i8 {
    if i < x.len() as int / 32 * 32 {
        level_of(x[i], scale_of(x, i / 32 * 32, 32))
    } else {
        0
    }
}

/// The levels of a vector that is cut into blocks of 32.
pub open spec fn levels_of<S: Analytic>(x: Seq<S>) -> Seq<i8> {
    Seq::new(x.len(), |i: int| block_level(x, i))
}

/// The scales of a vector's blocks of 32.
pub open spec fn scales_of<S: Analytic>(x: Seq<S>) -> Seq<S> {
    Seq::new(x.len() / 32, |b: int| scale_of(x, 32 * b, 32))
}

/// The levels of a vector that is cut into blocks of 32, and the scale of each
/// block.
pub fn quant_i8<S: Analytic>(x: &[S]) -> (r: (Vec<i8>, Vec<S>))
    ensures
        r.0@ == levels_of(x@),
        r.1@ == scales_of(x@),
        in_range(r.0@),
{
    let mut q: Vec<i8> = Vec::new();
    let mut s: Vec<S> = Vec::new();
    let nb: usize = x.len() / 32;
    for b in 0..nb
        invariant
            nb == x.len() / 32,
            x@.len() == x.len(),
            q@.len() == 32 * b,
            s@.len() == b,
            forall|i: int| 0 <= i < 32 * b ==> #[trigger] q@[i] == block_level(x@, i),
            in_range(q@),
            forall|k: int| 0 <= k < b ==> #[trigger] s@[k] == scale_of(x@, 32 * k, 32),
    {
        let (levels, scale) = quant_run(x, 32 * b, 32);
        for j in 0..32usize
            invariant
                nb == x.len() / 32,
                x@.len() == x.len(),
                b < nb,
                levels@.len() == 32,
                scale == scale_of(x@, 32 * b, 32),
                forall|i: int|
                    0 <= i < 32 ==> #[trigger] levels@[i] == level_of(x@[32 * b + i], scale),
                q@.len() == 32 * b + j,
                forall|i: int| 0 <= i < 32 * b + j ==> #[trigger] q@[i] == block_level(x@, i),
                in_range(levels@),
                in_range(q@),
        {
            assert((32 * b + j) / 32 * 32 == 32 * b);
            q.push(levels[j]);
        }
        s.push(scale);
    }
    for i in 32 * nb..x.len()
        invariant
            nb == x.len() / 32,
            x@.len() == x.len(),
            q@.len() == i,
            forall|k: int| 0 <= k < i ==> #[trigger] q@[k] == block_level(x@, k),
            in_range(q@),
    {
        q.push(0);
    }
    assert(q@ =~= levels_of(x@));
    assert(s@ =~= scales_of(x@));
    (q, s)
}

// ------------------------------------------------------------------- matrices

/// Row `r` of a matrix of 16-bit floats that starts at place `at` of a file.
pub open spec fn bf16_row<S: Analytic>(blob: Seq<u8>, at: int, r: int, cols: int) -> Seq<S> {
    Seq::new(cols as nat, |i: int| bf16_value(blob, at, r * cols + i))
}

/// The levels of the `n` rows from row `a` on, one row after another.
pub open spec fn rows_levels<S: Analytic>(blob: Seq<u8>, at: int, a: int, n: int, cols: int) -> Seq<
    i8,
>
    decreases n,
{
    if n <= 0 {
        Seq::empty()
    } else {
        rows_levels::<S>(blob, at, a, n - 1, cols) + levels_of(
            bf16_row::<S>(blob, at, a + n - 1, cols),
        )
    }
}

/// The scales of the `n` rows from row `a` on, one row after another.
pub open spec fn rows_scales<S: Analytic>(blob: Seq<u8>, at: int, a: int, n: int, cols: int) -> Seq<
    S,
>
    decreases n,
{
    if n <= 0 {
        Seq::empty()
    } else {
        rows_scales::<S>(blob, at, a, n - 1, cols) + scales_of(
            bf16_row::<S>(blob, at, a + n - 1, cols),
        )
    }
}

/// The rows of two neighbouring runs, one run after the other, are the rows of
/// both together: a matrix can be quantized run by run.
pub proof fn runs_are_joined<S: Analytic>(
    blob: Seq<u8>,
    at: int,
    a: int,
    n: int,
    m: int,
    cols: int,
)
    requires
        0 <= n,
        0 <= m,
    ensures
        rows_levels::<S>(blob, at, a, n + m, cols) == rows_levels::<S>(blob, at, a, n, cols)
            + rows_levels::<S>(blob, at, a + n, m, cols),
        rows_scales::<S>(blob, at, a, n + m, cols) == rows_scales::<S>(blob, at, a, n, cols)
            + rows_scales::<S>(blob, at, a + n, m, cols),
    decreases m,
{
    if m > 0 {
        runs_are_joined::<S>(blob, at, a, n, m - 1, cols);
        let row = bf16_row::<S>(blob, at, a + n + m - 1, cols);
        let (q, s) = (levels_of(row), scales_of(row));
        let (q0, s0) = (
            rows_levels::<S>(blob, at, a, n, cols),
            rows_scales::<S>(blob, at, a, n, cols),
        );
        let (q1, s1) = (
            rows_levels::<S>(blob, at, a + n, m - 1, cols),
            rows_scales::<S>(blob, at, a + n, m - 1, cols),
        );
        assert((q0 + q1) + q =~= q0 + (q1 + q));
        assert((s0 + s1) + s =~= s0 + (s1 + s));
    } else {
        assert(rows_levels::<S>(blob, at, a, n, cols) + Seq::<i8>::empty() =~= rows_levels::<S>(
            blob,
            at,
            a,
            n,
            cols,
        ));
        assert(rows_scales::<S>(blob, at, a, n, cols) + Seq::<S>::empty() =~= rows_scales::<S>(
            blob,
            at,
            a,
            n,
            cols,
        ));
    }
}

/// Each row stands in its place: its levels from `cols` times its number on, and
/// its scales from its number of blocks times its number on.
pub proof fn rows_are_placed<S: Analytic>(
    blob: Seq<u8>,
    at: int,
    a: int,
    n: int,
    cols: int,
    r: int,
)
    requires
        0 <= cols,
        0 <= r < n,
    ensures
        rows_levels::<S>(blob, at, a, n, cols).len() == n * cols,
        rows_scales::<S>(blob, at, a, n, cols).len() == n * (cols / 32),
        rows_levels::<S>(blob, at, a, n, cols).subrange(r * cols, r * cols + cols) == levels_of(
            bf16_row::<S>(blob, at, a + r, cols),
        ),
        rows_scales::<S>(blob, at, a, n, cols).subrange(
            r * (cols / 32),
            r * (cols / 32) + cols / 32,
        ) == scales_of(bf16_row::<S>(blob, at, a + r, cols)),
    decreases n,
{
    lemma_rows_lengths::<S>(blob, at, a, n, cols);
    lemma_rows_lengths::<S>(blob, at, a, n - 1, cols);
    let (q, s) = (
        rows_levels::<S>(blob, at, a, n, cols),
        rows_scales::<S>(blob, at, a, n, cols),
    );
    let (q0, s0) = (
        rows_levels::<S>(blob, at, a, n - 1, cols),
        rows_scales::<S>(blob, at, a, n - 1, cols),
    );
    let row = bf16_row::<S>(blob, at, a + n - 1, cols);
    let nb = cols / 32;
    lemma_mul_is_distributive_add_other_way(cols, n - 1, 1);
    lemma_mul_is_distributive_add_other_way(nb, n - 1, 1);
    if r == n - 1 {
        assert(q.subrange(r * cols, r * cols + cols) =~= levels_of(row));
        assert(s.subrange(r * nb, r * nb + nb) =~= scales_of(row));
    } else {
        rows_are_placed::<S>(blob, at, a, n - 1, cols, r);
        lemma_mul_inequality(r + 1, n - 1, cols);
        lemma_mul_inequality(r + 1, n - 1, nb);
        lemma_mul_is_distributive_add_other_way(cols, r, 1);
        lemma_mul_is_distributive_add_other_way(nb, r, 1);
        assert(0 <= r * cols && 0 <= r * nb) by (nonlinear_arith)
            requires
                0 <= r,
                0 <= cols,
                0 <= nb,
        ;
        assert(q.subrange(r * cols, r * cols + cols) =~= q0.subrange(r * cols, r * cols + cols));
        assert(s.subrange(r * nb, r * nb + nb) =~= s0.subrange(r * nb, r * nb + nb));
    }
}

proof fn lemma_rows_lengths<S: Analytic>(blob: Seq<u8>, at: int, a: int, n: int, cols: int)
    requires
        0 <= n,
        0 <= cols,
    ensures
        rows_levels::<S>(blob, at, a, n, cols).len() == n * cols,
        rows_scales::<S>(blob, at, a, n, cols).len() == n * (cols / 32),
    decreases n,
{
    if n > 0 {
        lemma_rows_lengths::<S>(blob, at, a, n - 1, cols);
        lemma_mul_is_distributive_add_other_way(cols, n - 1, 1);
        lemma_mul_is_distributive_add_other_way(cols / 32, n - 1, 1);
    } else {
        lemma_mul_basics(cols);
        lemma_mul_basics(cols / 32);
    }
}

/// The levels and scales of the rows `a .. b` of a matrix of 16-bit floats that
/// starts at place `at` of a file.
pub fn quant_rows<S: Analytic>(blob: &[u8], at: usize, a: usize, b: usize, cols: usize) -> (r: (
    Vec<i8>,
    Vec<S>,
))
    requires
        a <= b,
        at + 2 * (b * cols) <= blob.len(),
    ensures
        r.0@ == rows_levels::<S>(blob@, at as int, a as int, b - a, cols as int),
        r.1@ == rows_scales::<S>(blob@, at as int, a as int, b - a, cols as int),
        in_range(r.0@),
{
    let mut q: Vec<i8> = Vec::new();
    let mut s: Vec<S> = Vec::new();
    for r in a..b
        invariant
            a <= b,
            at + 2 * (b * cols) <= blob.len(),
            q@ == rows_levels::<S>(blob@, at as int, a as int, r - a, cols as int),
            s@ == rows_scales::<S>(blob@, at as int, a as int, r - a, cols as int),
            in_range(q@),
    {
        proof {
            lemma_mul_inequality(r + 1, b as int, cols as int);
            lemma_mul_is_distributive_add_other_way(cols as int, r as int, 1);
            assert(0 <= r * cols) by (nonlinear_arith)
                requires
                    0 <= r,
                    0 <= cols,
            ;
        }
        let bits: Vec<u32> = bf16_run(blob, at, r * cols, cols);
        let mut row: Vec<S> = Vec::new();
        for i in 0..cols
            invariant
                bits@.len() == cols,
                forall|k: int|
                    0 <= k < cols ==> #[trigger] bits@[k] == 0x1_0000 * le16(
                        blob@,
                        at + 2 * (r * cols + k),
                    ),
                row@.len() == i,
                forall|k: int|
                    0 <= k < i ==> #[trigger] row@[k] == bf16_value::<S>(
                        blob@,
                        at as int,
                        r * cols + k,
                    ),
        {
            row.push(S::of_bits(bits[i]));
        }
        assert(row@ =~= bf16_row::<S>(blob@, at as int, r as int, cols as int));
        let (mut levels, mut scales) = quant_i8(row.as_slice());
        q.append(&mut levels);
        s.append(&mut scales);
    }
    (q, s)
}

impl<S: Analytic> Q8Mat<S> {
    /// A matrix of 16-bit floats that starts at place `at` of a file, in levels.
    pub fn from_bf16(blob: &[u8], at: usize, rows: usize, cols: usize) -> (m: Q8Mat<S>)
        requires
            at + 2 * (rows * cols) <= blob.len(),
        ensures
            m.cols == cols,
            m.has_rows(rows as int),
            m.q@ == rows_levels::<S>(blob@, at as int, 0, rows as int, cols as int),
            m.s@ == rows_scales::<S>(blob@, at as int, 0, rows as int, cols as int),
            in_range(m.q@),
    {
        let (q, s) = quant_rows(blob, at, 0, rows, cols);
        proof {
            lemma_rows_lengths::<S>(blob@, at as int, 0, rows as int, cols as int);
        }
        Q8Mat { q, s, cols }
    }
}

} // verus!
