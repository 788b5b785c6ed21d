//! Rows of 8-bit weights times 8-bit activations, by blocks of 32.
//!
//! The products of a block are added as exact integers, in four lanes; the weights
//! and the activations each carry one scale for a block.
use crate::arith::{lemma_product_bounds, sum};
use crate::lanes::{lane, paired, quarter, scaled, Chain, Lanes};
use crate::scalar::Scalar;
use vstd::arithmetic::mul::{lemma_mul_inequality, lemma_mul_is_distributive_add_other_way};
use vstd::prelude::*;

verus! {

/// Weight times activation, for column `i` of block `b` of the row at `at`.
pub open spec fn q8_term(w: Seq<i8>, at: int, x: Seq<i8>, b: int) -> spec_fn(int) -> int {
    |i: int| w[at + 32 * b + i] * x[32 * b + i]
}

/// Weight times activation, for column `i` of block `b` of the row at `at`.
fn q8_product(wq: &[i8], at: usize, xq: &[i8], b: usize, i: usize) -> (r: i32)
    requires
        at + 32 * b + 32 <= wq.len(),
        32 * b + 32 <= xq.len(),
        i < 32,
    ensures
        r == q8_term(wq@, at as int, xq@, b as int)(i as int),
        -16384 <= r <= 16384,
{
    let (w, x): (i8, i8) = (wq[at + 32 * b + i], xq[32 * b + i]);
    proof {
        lemma_product_bounds(w as int, x as int, 128, 128);
    }
    (w as i32) * (x as i32)
}

/// Quarter `i` of block `b` of the row of 8-bit weights that starts at `at`.
fn q8_quarter(wq: &[i8], at: usize, xq: &[i8], b: usize, i: usize) -> (r: i32)
    requires
        at + 32 * b + 32 <= wq.len(),
        32 * b + 32 <= xq.len(),
        i < 8,
    ensures
        r == quarter(q8_term(wq@, at as int, xq@, b as int), i as int),
        -65536 <= r <= 65536,
{
    proof {
        reveal(quarter);
    }
    q8_product(wq, at, xq, b, 4 * i) + q8_product(wq, at, xq, b, 4 * i + 1) + q8_product(
        wq,
        at,
        xq,
        b,
        4 * i + 2,
    ) + q8_product(wq, at, xq, b, 4 * i + 3)
}

/// The four lanes of block `b` of the row of 8-bit weights that starts at `at`.
fn q8_lanes(wq: &[i8], at: usize, xq: &[i8], b: usize) -> (r: (i32, i32, i32, i32))
    requires
        at + 32 * b + 32 <= wq.len(),
        32 * b + 32 <= xq.len(),
    ensures
        ({
            let f = q8_term(wq@, at as int, xq@, b as int);
            r.0 == lane(f, 0) && r.1 == lane(f, 1) && r.2 == lane(f, 2) && r.3 == lane(f, 3)
        }),
{
    (
        q8_quarter(wq, at, xq, b, 0) + q8_quarter(wq, at, xq, b, 4),
        q8_quarter(wq, at, xq, b, 1) + q8_quarter(wq, at, xq, b, 5),
        q8_quarter(wq, at, xq, b, 2) + q8_quarter(wq, at, xq, b, 6),
        q8_quarter(wq, at, xq, b, 3) + q8_quarter(wq, at, xq, b, 7),
    )
}

/// Lane `l` after the first `n` blocks of the row of weights at `at`, whose scales
/// start at `sat`: each block adds its lane in one step, times the scale of the
/// weights times that of the activations.
pub open spec fn q8_lane<S: Scalar>(
    w: Seq<i8>,
    at: int,
    ws: Seq<S>,
    sat: int,
    x: Seq<i8>,
    xs: Seq<S>,
    l: int,
    n: int,
) -> S
    decreases n,
{
    if n <= 0 {
        S::zero_spec()
    } else {
        scaled(
            q8_lane(w, at, ws, sat, x, xs, l, n - 1),
            lane(q8_term(w, at, x, n - 1), l),
            ws[sat + n - 1].times_spec(xs[n - 1]),
        )
    }
}

/// The first `n` blocks of the row of weights at `at`, whose scales start at
/// `sat`, times the activations: the lanes added in pairs.
pub open spec fn q8_value<S: Scalar>(
    w: Seq<i8>,
    at: int,
    ws: Seq<S>,
    sat: int,
    x: Seq<i8>,
    xs: Seq<S>,
    n: int,
) -> S {
    paired(
        q8_lane(w, at, ws, sat, x, xs, 0, n),
        q8_lane(w, at, ws, sat, x, xs, 1, n),
        q8_lane(w, at, ws, sat, x, xs, 2, n),
        q8_lane(w, at, ws, sat, x, xs, 3, n),
    )
}

/// The row of 8-bit weights at `at`, whose scales start at `sat`, times the
/// activations. Columns beyond the last whole block are left out.
pub fn dot_q8_i8<S: Scalar>(
    wq: &[i8],
    at: usize,
    ws: &[S],
    sat: usize,
    xq: &[i8],
    xsb: &[S],
    cols: usize,
) -> (r: S)
    requires
        at + cols / 32 * 32 <= wq.len(),
        sat + cols / 32 <= ws.len(),
        cols / 32 * 32 <= xq.len(),
        cols / 32 <= xsb.len(),
    ensures
        r == q8_value(wq@, at as int, ws@, sat as int, xq@, xsb@, cols as int / 32),
{
    let mut sums: Lanes<S> = Lanes::zero();
    for b in 0..cols / 32
        invariant
            at + cols / 32 * 32 <= wq.len(),
            sat + cols / 32 <= ws.len(),
            cols / 32 * 32 <= xq.len(),
            cols / 32 <= xsb.len(),
            sums.a == q8_lane(wq@, at as int, ws@, sat as int, xq@, xsb@, 0, b as int),
            sums.b == q8_lane(wq@, at as int, ws@, sat as int, xq@, xsb@, 1, b as int),
            sums.c == q8_lane(wq@, at as int, ws@, sat as int, xq@, xsb@, 2, b as int),
            sums.d == q8_lane(wq@, at as int, ws@, sat as int, xq@, xsb@, 3, b as int),
    {
        assert(ws@.len() == ws.len() && xsb@.len() == xsb.len());
        sums = sums.grow(q8_lanes(wq, at, xq, b), ws[sat + b].times(xsb[b]));
    }
    sums.total()
}

/// Lane `l` of the even blocks, or of the odd ones, among the first `n` blocks of the
/// row of weights at `at`, whose scales start at `sat`.
pub open spec fn q8_split_lane<S: Scalar>(
    w: Seq<i8>,
    at: int,
    ws: Seq<S>,
    sat: int,
    x: Seq<i8>,
    xs: Seq<S>,
    l: int,
    odd: int,
    n: int,
) -> S
    decreases n,
{
    if n <= 0 {
        S::zero_spec()
    } else if (n - 1) % 2 == odd {
        scaled(
            q8_split_lane(w, at, ws, sat, x, xs, l, odd, n - 1),
            lane(q8_term(w, at, x, n - 1), l),
            ws[sat + n - 1].times_spec(xs[n - 1]),
        )
    } else {
        q8_split_lane(w, at, ws, sat, x, xs, l, odd, n - 1)
    }
}

/// Lane `l` of both chains together.
pub open spec fn q8_joined<S: Scalar>(
    w: Seq<i8>,
    at: int,
    ws: Seq<S>,
    sat: int,
    x: Seq<i8>,
    xs: Seq<S>,
    l: int,
    n: int,
) -> S {
    q8_split_lane(w, at, ws, sat, x, xs, l, 0, n).plus_spec(
        q8_split_lane(w, at, ws, sat, x, xs, l, 1, n),
    )
}

/// The first `n` blocks of the row of weights at `at`, whose scales start at
/// `sat`, times the activations, in a chain of even and a chain of odd blocks.
pub open spec fn q8_split_value<S: Scalar>(
    w: Seq<i8>,
    at: int,
    ws: Seq<S>,
    sat: int,
    x: Seq<i8>,
    xs: Seq<S>,
    n: int,
) -> S {
    paired(
        q8_joined(w, at, ws, sat, x, xs, 0, n),
        q8_joined(w, at, ws, sat, x, xs, 1, n),
        q8_joined(w, at, ws, sat, x, xs, 2, n),
        q8_joined(w, at, ws, sat, x, xs, 3, n),
    )
}

/// The lanes are those of a chain of even or of odd blocks.
spec fn is_chain<S: Scalar>(
    sums: Lanes<S>,
    w: Seq<i8>,
    at: int,
    ws: Seq<S>,
    sat: int,
    x: Seq<i8>,
    xs: Seq<S>,
    odd: int,
    n: int,
) -> bool {
    &&& sums.a == q8_split_lane(w, at, ws, sat, x, xs, 0, odd, n)
    &&& sums.b == q8_split_lane(w, at, ws, sat, x, xs, 1, odd, n)
    &&& sums.c == q8_split_lane(w, at, ws, sat, x, xs, 2, odd, n)
    &&& sums.d == q8_split_lane(w, at, ws, sat, x, xs, 3, odd, n)
}

/// The row of 8-bit weights at `at`, whose scales start at `sat`, times the
/// activations, in a chain of even and a chain of odd blocks. Columns beyond the
/// last whole block are left out.
pub fn dot_q8_i8_split<S: Scalar>(
    wq: &[i8],
    at: usize,
    ws: &[S],
    sat: usize,
    xq: &[i8],
    xsb: &[S],
    cols: usize,
) -> (r: S)
    requires
        at + cols / 32 * 32 <= wq.len(),
        sat + cols / 32 <= ws.len(),
        cols / 32 * 32 <= xq.len(),
        cols / 32 <= xsb.len(),
    ensures
        r == q8_split_value(wq@, at as int, ws@, sat as int, xq@, xsb@, cols as int / 32),
{
    let mut even: Lanes<S> = Lanes::zero();
    let mut odd: Lanes<S> = Lanes::zero();
    for b in 0..cols / 32
        invariant
            at + cols / 32 * 32 <= wq.len(),
            sat + cols / 32 <= ws.len(),
            cols / 32 * 32 <= xq.len(),
            cols / 32 <= xsb.len(),
            is_chain(even, wq@, at as int, ws@, sat as int, xq@, xsb@, 0, b as int),
            is_chain(odd, wq@, at as int, ws@, sat as int, xq@, xsb@, 1, b as int),
    {
        assert(ws@.len() == ws.len() && xsb@.len() == xsb.len());
        let dots: (i32, i32, i32, i32) = q8_lanes(wq, at, xq, b);
        let scale: S = ws[sat + b].times(xsb[b]);
        if b % 2 == 0 {
            even = even.grow(dots, scale);
        } else {
            odd = odd.grow(dots, scale);
        }
    }
    even.with(&odd).total()
}

/// A matrix of 8-bit weights: the weights row by row, the scales of their blocks,
/// and the number of columns.
pub struct Q8Mat<S> {
    pub q: Vec<i8>,
    pub s: Vec<S>,
    pub cols: usize,
}

impl<S: Scalar> Q8Mat<S> {
    /// The matrix has `rows` rows.
    pub open spec fn has_rows(&self, rows: int) -> bool {
        &&& rows * self.cols <= self.q@.len()
        &&& rows * (self.cols as int / 32) <= self.s@.len()
    }

    /// The value of row `r` times the activations.
    pub open spec fn row_value(&self, r: int, x: Seq<i8>, xs: Seq<S>, chain: Chain) -> S {
        let n = self.cols as int / 32;
        match chain {
            Chain::Single => q8_value(self.q@, r * self.cols, self.s@, r * n, x, xs, n),
            Chain::Split => q8_split_value(self.q@, r * self.cols, self.s@, r * n, x, xs, n),
        }
    }

    /// Row `row` times the activations.
    pub fn dot(&self, row: usize, xq: &[i8], xsb: &[S], chain: Chain) -> (r: S)
        requires
            self.has_rows(row + 1),
            self.cols / 32 * 32 <= xq.len(),
            self.cols / 32 <= xsb.len(),
        ensures
            r == self.row_value(row as int, xq@, xsb@, chain),
    {
        proof {
            let blocks = self.cols as int / 32;
            lemma_mul_is_distributive_add_other_way(self.cols as int, row as int, 1);
            lemma_mul_is_distributive_add_other_way(blocks, row as int, 1);
            assert(0 <= row * self.cols && 0 <= row * blocks) by (nonlinear_arith)
                requires
                    0 <= row,
                    0 <= self.cols,
                    0 <= blocks,
            ;
            assert(self.q@.len() == self.q.len() && self.s@.len() == self.s.len());
        }
        let (q, s) = (self.q.as_slice(), self.s.as_slice());
        let (at, sat): (usize, usize) = (row * self.cols, row * (self.cols / 32));
        match chain {
            Chain::Single => dot_q8_i8(q, at, s, sat, xq, xsb, self.cols),
            Chain::Split => dot_q8_i8_split(q, at, s, sat, xq, xsb, self.cols),
        }
    }
}

/// A matrix of `rows` rows has each of them.
pub proof fn rows_are_held<S: Scalar>(m: Q8Mat<S>, rows: int, r: int)
    requires
        m.has_rows(rows),
        0 <= r < rows,
    ensures
        m.has_rows(r + 1),
{
    lemma_mul_inequality(r + 1, rows, m.cols as int);
    lemma_mul_inequality(r + 1, rows, m.cols as int / 32);
}

/// Activation `i` of block `b`.
pub open spec fn block_term(x: Seq<i8>, b: int) -> spec_fn(int) -> int {
    |i: int| x[32 * b + i] as int
}

/// The sums of the activations by 32. A last block that is not whole is left out.
pub fn block_sums(xq: &[i8]) -> (out: Vec<i32>)
    ensures
        out.len() == xq.len() / 32,
        forall|b: int|
            0 <= b < out.len() ==> #[trigger] out@[b] == sum(32, block_term(xq@, b)),
{
    let mut out: Vec<i32> = Vec::new();
    for b in 0..xq.len() / 32
        invariant
            out@.len() == b,
            forall|k: int| 0 <= k < b ==> #[trigger] out@[k] == sum(32, block_term(xq@, k)),
    {
        let mut acc: i32 = 0;
        for i in 0..32usize
            invariant
                b < xq.len() / 32,
                acc == sum(i as int, block_term(xq@, b as int)),
                -128 * i <= acc <= 128 * i,
        {
            acc = acc + (xq[32 * b + i] as i32);
        }
        out.push(acc);
    }
    out
}

} // verus!
