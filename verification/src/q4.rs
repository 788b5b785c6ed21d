//! Plain 4-bit matrices: a weight `w` within `-8 .. 8` is stored as the code
//! `w + 8`, two codes to a byte. In every block of 32 columns, byte `i` holds the
//! codes of column `i` in its low and of column `16 + i` in its high half.
//!
//! The row layout stores row after row. The quad layout interleaves four rows:
//! block by block, sixteen bytes of each of the four rows, so that the kernel
//! reads one contiguous stream.
use crate::arith::{
    acc_i32, lemma_div_mod_of, lemma_product_bounds, lemma_sum_bounds, lemma_sum_linear,
    lemma_sum_same, lemma_wrap_minus, lemma_wrap_plus, lemma_wrap_shared, lemma_wrap_small,
    sum, wrap_i32,
};
use crate::bits::{hi_nibble, join_nibbles, lo_nibble};
use crate::partition::{ceil_div, chunk, lemma_ceil_div, run_start};
use vstd::prelude::*;

verus! {

// ---------------------------------------------------------------------- layout

/// The code of a weight.
pub open spec fn q4_code(w: i8) -> int {
    (w + 8) % 16
}

/// The byte that holds the weights `at` and `at + 16`.
pub open spec fn q4_byte(w: Seq<i8>, at: int) -> int {
    q4_code(w[at]) + 16 * q4_code(w[at + 16])
}

/// Where row `r` starts in the row layout.
pub open spec fn row_at(d: int, r: int) -> int {
    (r * d) / 2
}

/// Byte `k` of row `r` in the row layout.
pub open spec fn q4_row_byte(w: Seq<i8>, d: int, r: int, k: int) -> int {
    if k < 16 * (d / 32) {
        q4_byte(w, r * d + 32 * (k / 16) + k % 16)
    } else {
        0
    }
}

/// Byte `p` in the quad layout.
pub open spec fn q4_quad_byte(w: Seq<i8>, rows: int, d: int, p: int) -> int {
    let q = p / (2 * d);
    let k = p % (2 * d);
    if q < rows / 4 && k < 64 * (d / 32) {
        q4_byte(w, (4 * q + (k / 16) % 4) * d + 32 * (k / 64) + k % 16)
    } else {
        0
    }
}

/// `p` is the matrix `w` in the row layout.
pub open spec fn is_row_packed(p: Seq<u8>, w: Seq<i8>, rows: int, d: int) -> bool {
    &&& p.len() == rows * d / 2
    &&& forall|r: int, k: int|
        0 <= r < rows && 0 <= k < row_at(d, r + 1) - row_at(d, r) ==> #[trigger] p[row_at(d, r) + k]
            == q4_row_byte(w, d, r, k)
}

/// `p` is the matrix `w` in the quad layout.
pub open spec fn is_quad_packed(p: Seq<u8>, w: Seq<i8>, rows: int, d: int) -> bool {
    &&& p.len() == rows * d / 2
    &&& forall|i: int| 0 <= i < p.len() ==> #[trigger] p[i] == q4_quad_byte(w, rows, d, i)
}

/// Adding 8 to each packed weight stays within a signed byte.
pub open spec fn q4_packable(w: Seq<i8>, rows: int, d: int) -> bool {
    &&& rows * d <= usize::MAX
    &&& rows > 0 ==> (rows - 1) * d + d / 32 * 32 <= w.len()
    &&& forall|r: int, c: int|
        0 <= r < rows && 0 <= c < d / 32 * 32 ==> #[trigger] w[r * d + c] <= 119
}

proof fn lemma_code_bits(w: i8)
    by (bit_vector)
    requires
        w <= 119,
    ensures
        ((w + 8) as i8 as u8) & 0x0F == (w + 8) % 16,
{
}

/// The byte that holds two weights.
fn pack_pair(lo: i8, hi: i8) -> (r: u8)
    requires
        lo <= 119,
        hi <= 119,
    ensures
        r == q4_code(lo) + 16 * q4_code(hi),
{
    proof {
        lemma_code_bits(lo);
        lemma_code_bits(hi);
    }
    join_nibbles(((lo + 8) as u8) & 0x0F, ((hi + 8) as u8) & 0x0F)
}

proof fn lemma_rows_apart(d: int, r: int, s: int)
    requires
        0 <= r < s,
        0 <= d,
    ensures
        row_at(d, r + 1) <= row_at(d, s),
        row_at(d, r) <= row_at(d, r + 1),
        0 <= row_at(d, r),
        16 * (d / 32) <= row_at(d, r + 1) - row_at(d, r),
{
    assert((r + 1) * d == r * d + d) by (nonlinear_arith);
    assert((r + 1) * d <= s * d) by (nonlinear_arith)
        requires
            r + 1 <= s,
            0 <= d,
    ;
    assert(0 <= r * d) by (nonlinear_arith)
        requires
            0 <= r,
            0 <= d,
    ;
}

/// Packs a matrix of `rows` rows of `d` weights in the row layout. Columns beyond
/// the last whole block are left out; their bytes are zero.
pub fn pack_q4(weights: &[i8], rows: usize, d: usize) -> (out: Vec<u8>)
    requires
        q4_packable(weights@, rows as int, d as int),
    ensures
        is_row_packed(out@, weights@, rows as int, d as int),
{
    let mut out: Vec<u8> = Vec::new();
    let ghost dd = d as int;
    assert(row_at(dd, 0) == 0);
    for r in 0..rows
        invariant
            dd == d,
            q4_packable(weights@, rows as int, dd),
            out@.len() == row_at(dd, r as int),
            forall|s: int, k: int|
                0 <= s < r && 0 <= k < row_at(dd, s + 1) - row_at(dd, s)
                    ==> #[trigger] out@[row_at(dd, s) + k] == q4_row_byte(weights@, dd, s, k),
    {
        proof {
            lemma_rows_apart(dd, r as int, r + 1);
            assert((r + 1) * d <= rows * d) by (nonlinear_arith)
                requires
                    r + 1 <= rows,
                    0 <= d,
            ;
            assert((r + 1) * d == r * d + d) by (nonlinear_arith);
            assert((rows - 1) * d + d == rows * d) by (nonlinear_arith);
            assert(r * d <= (rows - 1) * d) by (nonlinear_arith)
                requires
                    r <= rows - 1,
                    0 <= d,
            ;
        }
        let (start, end): (usize, usize) = (r * d / 2, (r + 1) * d / 2);
        for k in 0..end - start
            invariant
                dd == d,
                r < rows,
                q4_packable(weights@, rows as int, dd),
                start == row_at(dd, r as int),
                end == row_at(dd, r + 1),
                r * d <= (rows - 1) * d,
                (rows - 1) * d + d <= rows * d,
                out@.len() == start + k,
                forall|s: int, j: int|
                    0 <= s < r && 0 <= j < row_at(dd, s + 1) - row_at(dd, s)
                        ==> #[trigger] out@[row_at(dd, s) + j] == q4_row_byte(weights@, dd, s, j),
                forall|j: int|
                    0 <= j < k ==> #[trigger] out@[start + j] == q4_row_byte(
                        weights@,
                        dd,
                        r as int,
                        j,
                    ),
        {
            let ghost before = out@;
            if k < 16 * (d / 32) {
                let at: usize = r * d + 32 * (k / 16) + k % 16;
                proof {
                    let c = 32 * (k as int / 16) + k as int % 16;
                    assert(weights@[r * dd + c] <= 119);
                    assert(weights@[r * dd + (c + 16)] <= 119);
                }
                out.push(pack_pair(weights[at], weights[at + 16]));
            } else {
                out.push(0);
            }
            assert forall|s: int, j: int|
                0 <= s < r && 0 <= j < row_at(dd, s + 1) - row_at(dd, s) implies #[trigger] out@[
                row_at(dd, s) + j] == q4_row_byte(weights@, dd, s, j) by {
                lemma_rows_apart(dd, s, r as int);
                assert(before[row_at(dd, s) + j] == q4_row_byte(weights@, dd, s, j));
            }
        }
        assert forall|s: int, k: int|
            0 <= s < r + 1 && 0 <= k < row_at(dd, s + 1) - row_at(dd, s) implies #[trigger] out@[
            row_at(dd, s) + k] == q4_row_byte(weights@, dd, s, k) by {
            if s == r {
                assert(out@[start + k] == q4_row_byte(weights@, dd, r as int, k));
            }
        }
    }
    out
}

/// Packs a matrix of `rows` rows of `d` weights in the quad layout. Rows beyond
/// the last whole quad and columns beyond the last whole block are left out;
/// their bytes are zero.
pub fn pack_q4_quad(weights: &[i8], rows: usize, d: usize) -> (out: Vec<u8>)
    requires
        q4_packable(weights@, rows as int, d as int),
    ensures
        is_quad_packed(out@, weights@, rows as int, d as int),
{
    let mut out: Vec<u8> = Vec::new();
    let len: usize = rows * d / 2;
    for p in 0..len
        invariant
            q4_packable(weights@, rows as int, d as int),
            len == rows * d / 2,
            out@.len() == p,
            forall|i: int|
                0 <= i < p ==> #[trigger] out@[i] == q4_quad_byte(
                    weights@,
                    rows as int,
                    d as int,
                    i,
                ),
    {
        proof {
            lemma_quad_stride(rows as int, d as int);
        }
        let mut byte: u8 = 0;
        if rows >= 4 {
            let qstride: usize = 4 * d / 2;
            let (q, k): (usize, usize) = (p / qstride, p % qstride);
            if q < rows / 4 && k < 64 * (d / 32) {
                let r: usize = 4 * q + (k / 16) % 4;
                let c: usize = 32 * (k / 64) + k % 16;
                proof {
                    assert(r * d <= (rows - 1) * d && r * d >= 0) by (nonlinear_arith)
                        requires
                            0 <= r <= rows - 1,
                            0 <= d,
                    ;
                    assert((rows - 1) * d + d == rows * d) by (nonlinear_arith);
                    assert(weights@[r * d + c] <= 119);
                    assert(weights@[r * d + (c + 16)] <= 119);
                }
                let at: usize = r * d + c;
                byte = pack_pair(weights[at], weights[at + 16]);
            }
        } else {
            assert(p as int / (2 * d as int) >= 0) by (nonlinear_arith)
                requires
                    d > 0,
                    p >= 0,
            ;
        }
        out.push(byte);
    }
    out
}

/// Four rows are within the matrix, where it has as many.
proof fn lemma_quad_stride(rows: int, d: int)
    requires
        0 <= rows,
        0 <= d,
        rows * d / 2 > 0,
    ensures
        d > 0,
        rows >= 4 ==> 4 * d <= rows * d,
{
    assert(d > 0) by (nonlinear_arith)
        requires
            rows * d / 2 > 0,
            0 <= rows,
            0 <= d,
    ;
    if rows >= 4 {
        assert(4 * d <= rows * d) by (nonlinear_arith)
            requires
                4 <= rows,
                0 <= d,
        ;
    }
}

// --------------------------------------------------------------------- kernels

/// The code of column `c` of the row that starts at byte `at`, row layout.
pub open spec fn row_code(w: Seq<u8>, at: int, c: int) -> int {
    let byte = w[at + 16 * (c / 32) + c % 16] as int;
    if c % 32 < 16 {
        byte % 16
    } else {
        byte / 16
    }
}

/// The code of column `c` of row `r` of the quad that starts at byte `at`.
pub open spec fn quad_code(w: Seq<u8>, at: int, r: int, c: int) -> int {
    let byte = w[at + 64 * (c / 32) + 16 * r + c % 16] as int;
    if c % 32 < 16 {
        byte % 16
    } else {
        byte / 16
    }
}

/// Weight times activation in column `c`.
pub open spec fn row_weight_term(w: Seq<u8>, at: int, x: Seq<i8>) -> spec_fn(int) -> int {
    |c: int| (row_code(w, at, c) - 8) * x[c]
}

/// Code times activation in column `c`, row layout.
pub open spec fn row_code_term(w: Seq<u8>, at: int, x: Seq<i8>) -> spec_fn(int) -> int {
    |c: int| row_code(w, at, c) * x[c]
}

/// Code times activation in column `c`, quad layout.
pub open spec fn quad_code_term(w: Seq<u8>, at: int, r: int, x: Seq<i8>) -> spec_fn(int) -> int {
    |c: int| quad_code(w, at, r, c) * x[c]
}

/// Activation `c`.
pub open spec fn x_term(x: Seq<i8>) -> spec_fn(int) -> int {
    |c: int| x[c] as int
}

/// One of the two codes of a byte.
fn half_of(byte: u8, low: bool) -> (r: i32)
    ensures
        r == if low {
            byte as int % 16
        } else {
            byte as int / 16
        },
        0 <= r < 16,
{
    if low {
        lo_nibble(byte) as i32
    } else {
        hi_nibble(byte) as i32
    }
}

/// The code of column `c` of the row that starts at byte `at`.
fn row_code_at(w: &[u8], at: usize, c: usize) -> (r: i32)
    requires
        at + 16 * (c as int / 32) + 16 <= w.len(),
    ensures
        r == row_code(w@, at as int, c as int),
        0 <= r < 16,
{
    half_of(w[at + 16 * (c / 32) + c % 16], c % 32 < 16)
}

/// The sum of all activations, wrapped.
pub fn sum_x(x: &[i8]) -> (r: i32)
    ensures
        r == wrap_i32(sum(x.len() as int, x_term(x@))),
{
    let mut acc: i32 = 0;
    for i in 0..x.len()
        invariant
            acc == wrap_i32(sum(i as int, x_term(x@))),
    {
        proof {
            lemma_wrap_plus(sum(i as int, x_term(x@)), x@[i as int] as int);
        }
        acc = acc_i32(acc, x[i] as i32);
    }
    acc
}

/// A column of whole blocks of 32 columns lies in a block of 16 bytes within the
/// blocks' bytes.
proof fn lemma_block_fits(c: int, blocks: int)
    requires
        0 <= c < 32 * blocks,
    ensures
        16 * (c / 32) + 16 <= 16 * blocks,
{
}

/// Adds the weight of column `c`, times its activation, to the sum over the columns
/// before it.
fn weight_step(w: &[u8], at: usize, x: &[i8], c: usize, acc: i32) -> (r: i32)
    requires
        at + 16 * (c as int / 32) + 16 <= w.len(),
        c < x.len(),
        acc == wrap_i32(sum(c as int, row_weight_term(w@, at as int, x@))),
    ensures
        r == wrap_i32(sum(c + 1, row_weight_term(w@, at as int, x@))),
{
    let code: i32 = row_code_at(w, at, c);
    proof {
        lemma_product_bounds(code - 8, x@[c as int] as int, 8, 128);
        lemma_wrap_plus(
            sum(c as int, row_weight_term(w@, at as int, x@)),
            (code - 8) * x@[c as int],
        );
    }
    acc_i32(acc, (code - 8) * (x[c] as i32))
}

/// The code of column `c`, times its activation.
fn code_times(w: &[u8], at: usize, x: &[i8], c: usize) -> (r: i32)
    requires
        at + 16 * (c as int / 32) + 16 <= w.len(),
        c < x.len(),
    ensures
        r == row_code_term(w@, at as int, x@)(c as int),
        r == row_code(w@, at as int, c as int) * x@[c as int],
{
    let code: i32 = row_code_at(w, at, c);
    proof {
        lemma_product_bounds(code as int, x@[c as int] as int, 15, 128);
    }
    code * (x[c] as i32)
}

/// The row that starts at byte `at`, times the activations, over the columns of
/// the whole pairs of blocks.
pub fn dot_row_q4(w: &[u8], at: usize, x: &[i8], d: usize) -> (r: i32)
    requires
        at + d / 64 * 32 <= w.len(),
        d / 64 * 64 <= x.len(),
    ensures
        r == wrap_i32(sum(64 * (d as int / 64), row_weight_term(w@, at as int, x@))),
{
    let mut acc: i32 = 0;
    let pairs: usize = d / 64;
    for c in 0..pairs * 64
        invariant
            at + 32 * pairs <= w.len(),
            64 * pairs <= x.len(),
            acc == wrap_i32(sum(c as int, row_weight_term(w@, at as int, x@))),
    {
        proof {
            lemma_block_fits(c as int, 2 * pairs);
        }
        acc = weight_step(w, at, x, c, acc);
    }
    acc
}

/// The codes of the row that starts at byte `at`, times the activations, over
/// the columns of the whole blocks.
fn dot_codes(w: &[u8], at: usize, x: &[i8], d: usize) -> (r: i32)
    requires
        at + d / 32 * 16 <= w.len(),
        d / 32 * 32 <= x.len(),
    ensures
        r == wrap_i32(sum(32 * (d as int / 32), row_code_term(w@, at as int, x@))),
{
    let mut acc: i32 = 0;
    let blocks: usize = d / 32;
    for c in 0..blocks * 32
        invariant
            at + 16 * blocks <= w.len(),
            32 * blocks <= x.len(),
            acc == wrap_i32(sum(c as int, row_code_term(w@, at as int, x@))),
    {
        proof {
            lemma_block_fits(c as int, blocks as int);
        }
        let term: i32 = code_times(w, at, x, c);
        proof {
            lemma_wrap_plus(sum(c as int, row_code_term(w@, at as int, x@)), term as int);
        }
        acc = acc_i32(acc, term);
    }
    acc
}

/// The codes of four rows, `stride` bytes apart from byte `at` on, times the
/// activations, over the columns of the whole blocks.
pub fn dot4_q4_v2(w: &[u8], at: usize, stride: usize, x: &[i8], d: usize) -> (r: [i32; 4])
    requires
        at + 3 * stride + d / 32 * 16 <= w.len(),
        d / 32 * 32 <= x.len(),
    ensures
        forall|i: int|
            0 <= i < 4 ==> #[trigger] r@[i] == wrap_i32(
                sum(32 * (d as int / 32), row_code_term(w@, at + i * stride, x@)),
            ),
{
    let a0: i32 = dot_codes(w, at, x, d);
    let a1: i32 = dot_codes(w, at + stride, x, d);
    let a2: i32 = dot_codes(w, at + 2 * stride, x, d);
    let a3: i32 = dot_codes(w, at + 3 * stride, x, d);
    assert(at + 0 * stride == at && at + 1 * stride == at + stride);
    [a0, a1, a2, a3]
}

/// The codes of the row that starts at byte `at`, times the activations, with
/// one accumulator for the low and one for the high halves of the bytes.
fn dot_codes_split(w: &[u8], at: usize, x: &[i8], d: usize) -> (r: i32)
    requires
        at + d / 64 * 32 <= w.len(),
        d / 64 * 64 <= x.len(),
    ensures
        r == wrap_i32(sum(64 * (d as int / 64), row_code_term(w@, at as int, x@))),
{
    let (mut lo, mut hi): (i32, i32) = (0, 0);
    let pairs: usize = d / 64;
    for c in 0..pairs * 64
        invariant
            at + 32 * pairs <= w.len(),
            64 * pairs <= x.len(),
            wrap_i32(lo + hi) == wrap_i32(sum(c as int, row_code_term(w@, at as int, x@))),
    {
        proof {
            lemma_block_fits(c as int, 2 * pairs);
        }
        let term: i32 = code_times(w, at, x, c);
        proof {
            lemma_wrap_shared(
                lo as int,
                hi as int,
                sum(c as int, row_code_term(w@, at as int, x@)),
                term as int,
            );
        }
        if c % 32 < 16 {
            lo = acc_i32(lo, term);
        } else {
            hi = acc_i32(hi, term);
        }
    }
    acc_i32(lo, hi)
}

/// The codes of four rows, `stride` bytes apart from byte `at` on, times the
/// activations, over the columns of the whole pairs of blocks.
pub fn dot4_q4_v3(w: &[u8], at: usize, stride: usize, x: &[i8], d: usize) -> (r: [i32; 4])
    requires
        at + 3 * stride + d / 64 * 32 <= w.len(),
        d / 64 * 64 <= x.len(),
    ensures
        forall|i: int|
            0 <= i < 4 ==> #[trigger] r@[i] == wrap_i32(
                sum(64 * (d as int / 64), row_code_term(w@, at + i * stride, x@)),
            ),
{
    let a0: i32 = dot_codes_split(w, at, x, d);
    let a1: i32 = dot_codes_split(w, at + stride, x, d);
    let a2: i32 = dot_codes_split(w, at + 2 * stride, x, d);
    let a3: i32 = dot_codes_split(w, at + 3 * stride, x, d);
    assert(at + 0 * stride == at && at + 1 * stride == at + stride);
    [a0, a1, a2, a3]
}

/// One step of the quad kernel: the lane of row `r` grows by column `c`.
fn quad_step(w: &[u8], at: usize, r: usize, x: &[i8], c: usize, acc: i32) -> (n: i32)
    requires
        r < 4,
        c < x.len(),
        at + 64 * (c / 32) + 64 <= w.len(),
        acc == wrap_i32(sum(c as int, quad_code_term(w@, at as int, r as int, x@))),
    ensures
        n == wrap_i32(sum(c + 1, quad_code_term(w@, at as int, r as int, x@))),
{
    let code: i32 = half_of(w[at + 64 * (c / 32) + 16 * r + c % 16], c % 32 < 16);
    proof {
        lemma_product_bounds(code as int, x@[c as int] as int, 15, 128);
        lemma_wrap_plus(
            sum(c as int, quad_code_term(w@, at as int, r as int, x@)),
            code * x@[c as int],
        );
    }
    acc_i32(acc, code * (x[c] as i32))
}

/// The codes of the quad that starts at byte `at`, times the activations, over
/// the columns of the whole blocks.
pub fn dot4_q4_v4(w: &[u8], at: usize, x: &[i8], d: usize) -> (r: [i32; 4])
    requires
        at + d / 32 * 64 <= w.len(),
        d / 32 * 32 <= x.len(),
    ensures
        forall|i: int|
            0 <= i < 4 ==> #[trigger] r@[i] == wrap_i32(
                sum(32 * (d as int / 32), quad_code_term(w@, at as int, i, x@)),
            ),
{
    let (mut a0, mut a1, mut a2, mut a3): (i32, i32, i32, i32) = (0, 0, 0, 0);
    let n: usize = d / 32 * 32;
    for c in 0..n
        invariant
            at + d / 32 * 64 <= w.len(),
            d / 32 * 32 <= x.len(),
            n == d / 32 * 32,
            a0 == wrap_i32(sum(c as int, quad_code_term(w@, at as int, 0, x@))),
            a1 == wrap_i32(sum(c as int, quad_code_term(w@, at as int, 1, x@))),
            a2 == wrap_i32(sum(c as int, quad_code_term(w@, at as int, 2, x@))),
            a3 == wrap_i32(sum(c as int, quad_code_term(w@, at as int, 3, x@))),
    {
        a0 = quad_step(w, at, 0, x, c, a0);
        a1 = quad_step(w, at, 1, x, c, a1);
        a2 = quad_step(w, at, 2, x, c, a2);
        a3 = quad_step(w, at, 3, x, c, a3);
    }
    [a0, a1, a2, a3]
}

// ----------------------------------------------------------- matrix times vector

/// Row `r` of a row-packed matrix times the activations.
pub open spec fn row_out(w: Seq<u8>, x: Seq<i8>, d: int, r: int) -> int {
    wrap_i32(sum(64 * (d / 64), row_weight_term(w, row_at(d, r), x)))
}

/// Where row `r` starts when the rows of a quad are `d / 2` bytes apart.
pub open spec fn stride_at(d: int, r: int) -> int {
    2 * (r / 4) * d + (r % 4) * (d / 2)
}

/// Row `r` of a row-packed matrix times the activations, over the columns of the
/// whole blocks: the codes' dot product, less eight times the activations' sum.
pub open spec fn folded_row_out(w: Seq<u8>, x: Seq<i8>, d: int, r: int) -> int {
    wrap_i32(
        sum(32 * (d / 32), row_code_term(w, stride_at(d, r), x)) - 8 * sum(
            x.len() as int,
            x_term(x),
        ),
    )
}

/// Row `r` of a quad-packed matrix times the activations: the codes' dot
/// product, less eight times the activations' sum.
pub open spec fn folded_quad_out(w: Seq<u8>, x: Seq<i8>, d: int, r: int) -> int {
    wrap_i32(
        sum(32 * (d / 32), quad_code_term(w, (r / 4) * (2 * d), r % 4, x)) - 8 * sum(
            x.len() as int,
            x_term(x),
        ),
    )
}

/// A row's dot product of codes, corrected by the bias of eight per weight.
fn fold_bias(acc: i32, sumx: i32, Ghost(s): Ghost<int>, Ghost(t): Ghost<int>) -> (r: i32)
    requires
        acc == wrap_i32(s),
        sumx == wrap_i32(t),
    ensures
        r == wrap_i32(s - 8 * t),
{
    let two: i32 = acc_i32(sumx, sumx);
    let four: i32 = acc_i32(two, two);
    let eight: i32 = acc_i32(four, four);
    proof {
        lemma_wrap_plus(t, t);
        lemma_wrap_plus(t, sumx as int);
        lemma_wrap_plus(2 * t, 2 * t);
        lemma_wrap_plus(2 * t, two as int);
        lemma_wrap_plus(4 * t, 4 * t);
        lemma_wrap_plus(4 * t, four as int);
        assert(eight == wrap_i32(8 * t));
        lemma_wrap_minus(s, 8 * t);
    }
    acc.wrapping_sub(eight)
}

/// Writes `v` into `y` from index `at` on.
fn place(y: &mut [i32], at: usize, v: &Vec<i32>)
    requires
        at + v.len() <= old(y).len(),
    ensures
        final(y)@.len() == old(y)@.len(),
        forall|i: int|
            0 <= i < final(y)@.len() ==> #[trigger] final(y)@[i] == if at <= i < at + v.len() {
                v@[i - at]
            } else {
                old(y)@[i]
            },
{
    for j in 0..v.len()
        invariant
            at + v.len() <= old(y).len(),
            y@.len() == old(y)@.len(),
            forall|i: int|
                0 <= i < y@.len() ==> #[trigger] y@[i] == if at <= i < at + j {
                    v@[i - at]
                } else {
                    old(y)@[i]
                },
    {
        y[at + j] = v[j];
    }
}

/// What the row kernel reads of the matrix and the activations is there.
pub open spec fn rows_fit(w: int, x: int, rows: int, d: int) -> bool {
    &&& rows > 0 ==> row_at(d, rows - 1) + d / 64 * 32 <= w
    &&& d / 64 * 64 <= x
}

/// What the strided kernel reads of the matrix and the activations is there.
pub open spec fn quads_fit(w: int, x: int, rows: int, d: int) -> bool {
    &&& rows >= 4 ==> 2 * (rows / 4 - 1) * d + 3 * (d / 2) + d / 32 * 16 <= w
    &&& d / 32 * 32 <= x
}

/// What the quad kernel reads of the matrix and the activations is there.
pub open spec fn packed_quads_fit(w: int, x: int, rows: int, d: int) -> bool {
    &&& rows >= 4 ==> (rows / 4 - 1) * (2 * d) + d / 32 * 64 <= w
    &&& d / 32 * 32 <= x
}

/// One worker's rows `r0 .. r1` of a row-packed matrix, times the activations.
pub fn gemv_q4_rows(w: &[u8], x: &[i8], r0: usize, r1: usize, d: usize) -> (out: Vec<i32>)
    requires
        r0 <= r1,
        rows_fit(w.len() as int, x.len() as int, r1 as int, d as int),
    ensures
        out.len() == r1 - r0,
        forall|i: int|
            0 <= i < out.len() ==> #[trigger] out@[i] == row_out(w@, x@, d as int, r0 + i),
{
    let mut out: Vec<i32> = Vec::new();
    for r in r0..r1
        invariant
            r0 <= r1,
            rows_fit(w.len() as int, x.len() as int, r1 as int, d as int),
            out@.len() == r - r0,
            forall|i: int|
                0 <= i < out@.len() ==> #[trigger] out@[i] == row_out(w@, x@, d as int, r0 + i),
    {
        proof {
            if r < r1 - 1 {
                lemma_rows_apart(d as int, r as int, r1 - 1);
            }
            lemma_row_at(d as int, r as int);
        }
        let half: usize = if r % 2 == 1 {
            d / 2
        } else {
            0
        };
        let at: usize = r / 2 * d + half;
        out.push(dot_row_q4(w, at, x, d));
    }
    out
}

/// Matrix times vector, row layout, one row at a time; the rows go to
/// `nthreads` workers in equal chunks. Entries beyond the rows stay.
pub fn gemv_q4(w: &[u8], x: &[i8], y: &mut [i32], rows: usize, d: usize, nthreads: usize)
    requires
        0 < nthreads,
        rows <= old(y).len(),
        rows_fit(w.len() as int, x.len() as int, rows as int, d as int),
    ensures
        final(y)@.len() == old(y)@.len(),
        forall|r: int| 0 <= r < rows ==> #[trigger] final(y)@[r] == row_out(w@, x@, d as int, r),
        forall|r: int| rows <= r < old(y)@.len() ==> #[trigger] final(y)@[r] == old(y)@[r],
{
    let ghost n = rows as int;
    let ghost size = ceil_div(n, nthreads as int);
    let mut t: usize = 0;
    proof {
        lemma_ceil_div(n, nthreads as int);
    }
    while t < nthreads
        invariant_except_break
            t <= nthreads,
        invariant
            n == rows,
            size == ceil_div(n, nthreads as int),
            0 < nthreads,
            rows <= old(y).len(),
            rows_fit(w.len() as int, x.len() as int, n, d as int),
            y@.len() == old(y)@.len(),
            0 <= run_start(n, size, t as int),
            forall|r: int|
                0 <= r < run_start(n, size, t as int) ==> #[trigger] y@[r] == row_out(
                    w@,
                    x@,
                    d as int,
                    r,
                ),
            forall|r: int|
                run_start(n, size, t as int) <= r < y@.len() ==> #[trigger] y@[r] == old(y)@[r],
        ensures
            t == nthreads || t * size >= n,
        decreases nthreads - t,
    {
        match chunk(rows, nthreads, t) {
            None => {
                break ;
            },
            Some((r0, r1)) => {
                proof {
                    lemma_rows_fit_less(w.len() as int, x.len() as int, n, r1 as int, d as int);
                }
                let v = gemv_q4_rows(w, x, r0, r1, d);
                place(y, r0, &v);
            },
        }
        t = t + 1;
    }
    proof {
        lemma_ceil_div(n, nthreads as int);
        assert(nthreads * size == size * nthreads) by (nonlinear_arith);
    }
}

/// Where a row starts: half of its number of rows before it, and half a row more where
/// that number is odd.
proof fn lemma_row_at(d: int, r: int)
    requires
        0 <= r,
        0 <= d,
    ensures
        0 <= r / 2 * d,
        row_at(d, r) == r / 2 * d + if r % 2 == 1 {
            d / 2
        } else {
            0
        },
{
    let (h, e) = (r / 2, r % 2);
    assert(r * d == 2 * (h * d) + e * d) by (nonlinear_arith)
        requires
            r == 2 * h + e,
    ;
    assert(0 <= h * d) by (nonlinear_arith)
        requires
            0 <= h,
            0 <= d,
    ;
    assert(e * d == if e == 1 {
        d
    } else {
        0
    }) by (nonlinear_arith)
        requires
            e == 0 || e == 1,
    ;
}

proof fn lemma_rows_fit_less(w: int, x: int, rows: int, r: int, d: int)
    requires
        rows_fit(w, x, rows, d),
        0 <= r <= rows,
        0 <= d,
    ensures
        rows_fit(w, x, r, d),
{
    if 0 < r < rows {
        lemma_rows_apart(d, r - 1, rows - 1);
    }
}

proof fn lemma_quads(rows: int, q: int, d: int)
    requires
        0 <= q < rows / 4,
        0 <= d,
    ensures
        0 <= 4 * q * d <= rows * d,
        4 * q * d / 2 == 2 * q * d,
        2 * q * d <= 2 * (rows / 4 - 1) * d,
        q * (2 * d) <= (rows / 4 - 1) * (2 * d),
        0 <= q * (2 * d) == 2 * q * d,
{
    assert(0 <= 4 * q * d <= rows * d) by (nonlinear_arith)
        requires
            0 <= 4 * q <= rows,
            0 <= d,
    ;
    assert(4 * q * d == 2 * (2 * q * d)) by (nonlinear_arith);
    assert(2 * q * d <= 2 * (rows / 4 - 1) * d) by (nonlinear_arith)
        requires
            q <= rows / 4 - 1,
            0 <= d,
    ;
    assert(q * (2 * d) == 2 * q * d) by (nonlinear_arith);
    assert((rows / 4 - 1) * (2 * d) == 2 * (rows / 4 - 1) * d) by (nonlinear_arith);
}

/// The corrected outputs of quad `q` follow from the quad's dot products.
fn push_folded(
    out: &mut Vec<i32>,
    acc: &[i32; 4],
    sumx: i32,
    Ghost(dot): Ghost<spec_fn(int) -> int>,
    Ghost(t): Ghost<int>,
)
    requires
        sumx == wrap_i32(t),
        forall|i: int| 0 <= i < 4 ==> #[trigger] acc@[i] == wrap_i32(dot(i)),
    ensures
        final(out)@.len() == old(out)@.len() + 4,
        forall|i: int| 0 <= i < old(out)@.len() ==> #[trigger] final(out)@[i] == old(out)@[i],
        forall|i: int|
            0 <= i < 4 ==> #[trigger] final(out)@[old(out)@.len() + i] == wrap_i32(dot(i) - 8 * t),
{
    for i in 0..4usize
        invariant
            sumx == wrap_i32(t),
            forall|i: int| 0 <= i < 4 ==> #[trigger] acc@[i] == wrap_i32(dot(i)),
            out@.len() == old(out)@.len() + i,
            forall|j: int| 0 <= j < old(out)@.len() ==> #[trigger] out@[j] == old(out)@[j],
            forall|j: int|
                0 <= j < i ==> #[trigger] out@[old(out)@.len() + j] == wrap_i32(dot(j) - 8 * t),
    {
        out.push(fold_bias(acc[i], sumx, Ghost(dot(i as int)), Ghost(t)));
    }
}

/// Extends outputs that are right up to quad `q` by that quad.
proof fn lemma_next_quad(
    before: Seq<i32>,
    after: Seq<i32>,
    q0: int,
    q: int,
    f: spec_fn(int) -> int,
)
    requires
        before.len() == 4 * (q - q0),
        after.len() == before.len() + 4,
        q0 <= q,
        forall|i: int| 0 <= i < before.len() ==> #[trigger] before[i] == f(4 * q0 + i),
        forall|i: int| 0 <= i < before.len() ==> #[trigger] after[i] == before[i],
        forall|i: int| 0 <= i < 4 ==> #[trigger] after[before.len() + i] == f(4 * q + i),
    ensures
        forall|i: int| 0 <= i < after.len() ==> #[trigger] after[i] == f(4 * q0 + i),
{
    assert forall|i: int| 0 <= i < after.len() implies #[trigger] after[i] == f(4 * q0 + i) by {
        if i < before.len() {
            assert(before[i] == f(4 * q0 + i));
        } else {
            let j = i - before.len();
            assert(after[before.len() + j] == f(4 * q + j));
        }
    }
}

/// One worker's quads `q0 .. q1` of a row-packed matrix, times the activations,
/// whose sum is `sumx`.
pub fn gemv_q4_v2_quads(w: &[u8], x: &[i8], sumx: i32, q0: usize, q1: usize, d: usize) -> (out: Vec<
    i32,
>)
    requires
        q0 <= q1,
        4 * q1 <= usize::MAX,
        sumx == wrap_i32(sum(x.len() as int, x_term(x@))),
        quads_fit(w.len() as int, x.len() as int, 4 * q1, d as int),
    ensures
        out.len() == 4 * (q1 - q0),
        forall|i: int|
            0 <= i < out.len() ==> #[trigger] out@[i] == folded_row_out(
                w@,
                x@,
                d as int,
                4 * q0 + i,
            ),
{
    let mut out: Vec<i32> = Vec::new();
    let ghost f = |r: int| folded_row_out(w@, x@, d as int, r);
    let ghost t = sum(x.len() as int, x_term(x@));
    for q in q0..q1
        invariant
            q0 <= q1,
            4 * q1 <= usize::MAX,
            f == (|r: int| folded_row_out(w@, x@, d as int, r)),
            t == sum(x.len() as int, x_term(x@)),
            sumx == wrap_i32(t),
            quads_fit(w.len() as int, x.len() as int, 4 * q1, d as int),
            out@.len() == 4 * (q - q0),
            forall|i: int| 0 <= i < out@.len() ==> #[trigger] out@[i] == f(4 * q0 + i),
    {
        proof {
            lemma_quads(4 * q1, q as int, d as int);
        }
        let at: usize = 2 * q * d;
        let acc = dot4_q4_v2(w, at, d / 2, x, d);
        let ghost before = out@;
        let ghost dot = |i: int|
            sum(32 * (d as int / 32), row_code_term(w@, at + i * (d / 2), x@));
        push_folded(&mut out, &acc, sumx, Ghost(dot), Ghost(t));
        proof {
            assert forall|i: int| 0 <= i < 4 implies #[trigger] out@[before.len() + i] == f(
                4 * q + i,
            ) by {
                assert((4 * q + i) / 4 == q && (4 * q + i) % 4 == i);
                assert(stride_at(d as int, 4 * q + i) == at + i * (d as int / 2));
            }
            lemma_next_quad(before, out@, q0 as int, q as int, f);
        }
    }
    out
}

/// As `gemv_q4_v2_quads`, with the kernel that takes two blocks at a time.
pub fn gemv_q4_v3_quads(w: &[u8], x: &[i8], sumx: i32, q0: usize, q1: usize, d: usize) -> (out: Vec<
    i32,
>)
    requires
        q0 <= q1,
        4 * q1 <= usize::MAX,
        d % 64 == 0,
        sumx == wrap_i32(sum(x.len() as int, x_term(x@))),
        quads_fit(w.len() as int, x.len() as int, 4 * q1, d as int),
    ensures
        out.len() == 4 * (q1 - q0),
        forall|i: int|
            0 <= i < out.len() ==> #[trigger] out@[i] == folded_row_out(
                w@,
                x@,
                d as int,
                4 * q0 + i,
            ),
{
    let mut out: Vec<i32> = Vec::new();
    let ghost f = |r: int| folded_row_out(w@, x@, d as int, r);
    let ghost t = sum(x.len() as int, x_term(x@));
    for q in q0..q1
        invariant
            q0 <= q1,
            4 * q1 <= usize::MAX,
            d % 64 == 0,
            f == (|r: int| folded_row_out(w@, x@, d as int, r)),
            t == sum(x.len() as int, x_term(x@)),
            sumx == wrap_i32(t),
            quads_fit(w.len() as int, x.len() as int, 4 * q1, d as int),
            out@.len() == 4 * (q - q0),
            forall|i: int| 0 <= i < out@.len() ==> #[trigger] out@[i] == f(4 * q0 + i),
    {
        proof {
            lemma_quads(4 * q1, q as int, d as int);
            assert(64 * (d as int / 64) == d && 32 * (d as int / 32) == d);
        }
        let at: usize = 2 * q * d;
        let acc = dot4_q4_v3(w, at, d / 2, x, d);
        let ghost before = out@;
        let ghost dot = |i: int| sum(d as int, row_code_term(w@, at + i * (d / 2), x@));
        push_folded(&mut out, &acc, sumx, Ghost(dot), Ghost(t));
        proof {
            assert forall|i: int| 0 <= i < 4 implies #[trigger] out@[before.len() + i] == f(
                4 * q + i,
            ) by {
                assert((4 * q + i) / 4 == q && (4 * q + i) % 4 == i);
                assert(stride_at(d as int, 4 * q + i) == at + i * (d as int / 2));
            }
            lemma_next_quad(before, out@, q0 as int, q as int, f);
        }
    }
    out
}

/// One worker's quads `q0 .. q1` of a quad-packed matrix, times the activations,
/// whose sum is `sumx`.
pub fn gemv_q4_v4_quads(w: &[u8], x: &[i8], sumx: i32, q0: usize, q1: usize, d: usize) -> (out: Vec<
    i32,
>)
    requires
        q0 <= q1,
        4 * q1 <= usize::MAX,
        sumx == wrap_i32(sum(x.len() as int, x_term(x@))),
        packed_quads_fit(w.len() as int, x.len() as int, 4 * q1, d as int),
    ensures
        out.len() == 4 * (q1 - q0),
        forall|i: int|
            0 <= i < out.len() ==> #[trigger] out@[i] == folded_quad_out(
                w@,
                x@,
                d as int,
                4 * q0 + i,
            ),
{
    let mut out: Vec<i32> = Vec::new();
    let ghost f = |r: int| folded_quad_out(w@, x@, d as int, r);
    let ghost t = sum(x.len() as int, x_term(x@));
    for q in q0..q1
        invariant
            q0 <= q1,
            4 * q1 <= usize::MAX,
            f == (|r: int| folded_quad_out(w@, x@, d as int, r)),
            t == sum(x.len() as int, x_term(x@)),
            sumx == wrap_i32(t),
            packed_quads_fit(w.len() as int, x.len() as int, 4 * q1, d as int),
            out@.len() == 4 * (q - q0),
            forall|i: int| 0 <= i < out@.len() ==> #[trigger] out@[i] == f(4 * q0 + i),
    {
        proof {
            lemma_quads(4 * q1, q as int, d as int);
        }
        let at: usize = 2 * q * d;
        let acc = dot4_q4_v4(w, at, x, d);
        let ghost before = out@;
        let ghost dot = |i: int| sum(32 * (d as int / 32), quad_code_term(w@, at as int, i, x@));
        push_folded(&mut out, &acc, sumx, Ghost(dot), Ghost(t));
        proof {
            assert forall|i: int| 0 <= i < 4 implies #[trigger] out@[before.len() + i] == f(
                4 * q + i,
            ) by {
                assert((4 * q + i) / 4 == q && (4 * q + i) % 4 == i);
            }
            lemma_next_quad(before, out@, q0 as int, q as int, f);
        }
    }
    out
}

proof fn lemma_quads_fit_less(w: int, x: int, rows: int, q: int, d: int)
    requires
        quads_fit(w, x, rows, d),
        0 <= 4 * q <= rows,
        0 <= d,
    ensures
        quads_fit(w, x, 4 * q, d),
{
    if q > 0 {
        lemma_quads(rows, q - 1, d);
    }
}

proof fn lemma_packed_quads_fit_less(w: int, x: int, rows: int, q: int, d: int)
    requires
        packed_quads_fit(w, x, rows, d),
        0 <= 4 * q <= rows,
        0 <= d,
    ensures
        packed_quads_fit(w, x, 4 * q, d),
{
    if q > 0 {
        lemma_quads(rows, q - 1, d);
    }
}

/// Matrix times vector, row layout, four rows at a time, with the bias of eight
/// folded out of the loop; the quads go to `nthreads` workers in equal chunks.
/// Entries beyond the rows stay.
pub fn gemv_q4_v2(w: &[u8], x: &[i8], y: &mut [i32], rows: usize, d: usize, nthreads: usize)
    requires
        0 < nthreads,
        rows <= old(y).len(),
        rows % 4 == 0,
        quads_fit(w.len() as int, x.len() as int, rows as int, d as int),
    ensures
        final(y)@.len() == old(y)@.len(),
        forall|r: int|
            0 <= r < rows ==> #[trigger] final(y)@[r] == folded_row_out(w@, x@, d as int, r),
        forall|r: int| rows <= r < old(y)@.len() ==> #[trigger] final(y)@[r] == old(y)@[r],
{
    let sumx: i32 = sum_x(x);
    let nquads: usize = rows / 4;
    let ghost n = nquads as int;
    let ghost size = ceil_div(n, nthreads as int);
    let mut t: usize = 0;
    proof {
        lemma_ceil_div(n, nthreads as int);
    }
    while t < nthreads
        invariant_except_break
            t <= nthreads,
        invariant
            n == nquads == rows / 4,
            size == ceil_div(n, nthreads as int),
            0 < nthreads,
            rows <= old(y).len(),
            rows % 4 == 0,
            sumx == wrap_i32(sum(x.len() as int, x_term(x@))),
            quads_fit(w.len() as int, x.len() as int, rows as int, d as int),
            y@.len() == old(y)@.len(),
            0 <= run_start(n, size, t as int),
            forall|r: int|
                0 <= r < 4 * run_start(n, size, t as int) ==> #[trigger] y@[r]
                    == folded_row_out(w@, x@, d as int, r),
            forall|r: int|
                4 * run_start(n, size, t as int) <= r < y@.len() ==> #[trigger] y@[r]
                    == old(y)@[r],
        ensures
            t == nthreads || t * size >= n,
        decreases nthreads - t,
    {
        match chunk(nquads, nthreads, t) {
            None => {
                break ;
            },
            Some((q0, q1)) => {
                proof {
                    lemma_quads_fit_less(w.len() as int, x.len() as int, rows as int, q1 as int, d as int);
                }
                let v = gemv_q4_v2_quads(w, x, sumx, q0, q1, d);
                let ghost before = y@;
                place(y, 4 * q0, &v);
                assert forall|r: int| 0 <= r < 4 * q1 implies #[trigger] y@[r]
                    == folded_row_out(w@, x@, d as int, r) by {
                    if r >= 4 * q0 {
                        assert(v@[r - 4 * q0] == folded_row_out(w@, x@, d as int, 4 * q0 + (r - 4 * q0)));
                    } else {
                        assert(before[r] == folded_row_out(w@, x@, d as int, r));
                    }
                }
            },
        }
        t = t + 1;
    }
    proof {
        lemma_ceil_div(n, nthreads as int);
        assert(nthreads * size == size * nthreads) by (nonlinear_arith);
    }
}

/// As `gemv_q4_v2`, two blocks at a time.
pub fn gemv_q4_v3(w: &[u8], x: &[i8], y: &mut [i32], rows: usize, d: usize, nthreads: usize)
    requires
        0 < nthreads,
        rows <= old(y).len(),
        rows % 4 == 0,
        d % 64 == 0,
        quads_fit(w.len() as int, x.len() as int, rows as int, d as int),
    ensures
        final(y)@.len() == old(y)@.len(),
        forall|r: int|
            0 <= r < rows ==> #[trigger] final(y)@[r] == folded_row_out(w@, x@, d as int, r),
        forall|r: int| rows <= r < old(y)@.len() ==> #[trigger] final(y)@[r] == old(y)@[r],
{
    let sumx: i32 = sum_x(x);
    let nquads: usize = rows / 4;
    let ghost n = nquads as int;
    let ghost size = ceil_div(n, nthreads as int);
    let mut t: usize = 0;
    proof {
        lemma_ceil_div(n, nthreads as int);
    }
    while t < nthreads
        invariant_except_break
            t <= nthreads,
        invariant
            n == nquads == rows / 4,
            size == ceil_div(n, nthreads as int),
            0 < nthreads,
            rows <= old(y).len(),
            rows % 4 == 0,
            d % 64 == 0,
            sumx == wrap_i32(sum(x.len() as int, x_term(x@))),
            quads_fit(w.len() as int, x.len() as int, rows as int, d as int),
            y@.len() == old(y)@.len(),
            0 <= run_start(n, size, t as int),
            forall|r: int|
                0 <= r < 4 * run_start(n, size, t as int) ==> #[trigger] y@[r]
                    == folded_row_out(w@, x@, d as int, r),
            forall|r: int|
                4 * run_start(n, size, t as int) <= r < y@.len() ==> #[trigger] y@[r]
                    == old(y)@[r],
        ensures
            t == nthreads || t * size >= n,
        decreases nthreads - t,
    {
        match chunk(nquads, nthreads, t) {
            None => {
                break ;
            },
            Some((q0, q1)) => {
                proof {
                    lemma_quads_fit_less(w.len() as int, x.len() as int, rows as int, q1 as int, d as int);
                }
                let v = gemv_q4_v3_quads(w, x, sumx, q0, q1, d);
                let ghost before = y@;
                place(y, 4 * q0, &v);
                assert forall|r: int| 0 <= r < 4 * q1 implies #[trigger] y@[r]
                    == folded_row_out(w@, x@, d as int, r) by {
                    if r >= 4 * q0 {
                        assert(v@[r - 4 * q0] == folded_row_out(w@, x@, d as int, 4 * q0 + (r - 4 * q0)));
                    } else {
                        assert(before[r] == folded_row_out(w@, x@, d as int, r));
                    }
                }
            },
        }
        t = t + 1;
    }
    proof {
        lemma_ceil_div(n, nthreads as int);
        assert(nthreads * size == size * nthreads) by (nonlinear_arith);
    }
}

/// Matrix times vector, quad layout; the quads go to `nthreads` workers in equal
/// chunks. Entries beyond the rows stay.
pub fn gemv_q4_v4(w: &[u8], x: &[i8], y: &mut [i32], rows: usize, d: usize, nthreads: usize)
    requires
        0 < nthreads,
        rows <= old(y).len(),
        rows % 4 == 0,
        d % 32 == 0,
        packed_quads_fit(w.len() as int, x.len() as int, rows as int, d as int),
    ensures
        final(y)@.len() == old(y)@.len(),
        forall|r: int|
            0 <= r < rows ==> #[trigger] final(y)@[r] == folded_quad_out(w@, x@, d as int, r),
        forall|r: int| rows <= r < old(y)@.len() ==> #[trigger] final(y)@[r] == old(y)@[r],
{
    let sumx: i32 = sum_x(x);
    let nquads: usize = rows / 4;
    let ghost n = nquads as int;
    let ghost size = ceil_div(n, nthreads as int);
    let mut t: usize = 0;
    proof {
        lemma_ceil_div(n, nthreads as int);
    }
    while t < nthreads
        invariant_except_break
            t <= nthreads,
        invariant
            n == nquads == rows / 4,
            size == ceil_div(n, nthreads as int),
            0 < nthreads,
            rows <= old(y).len(),
            rows % 4 == 0,
            d % 32 == 0,
            sumx == wrap_i32(sum(x.len() as int, x_term(x@))),
            packed_quads_fit(w.len() as int, x.len() as int, rows as int, d as int),
            y@.len() == old(y)@.len(),
            0 <= run_start(n, size, t as int),
            forall|r: int|
                0 <= r < 4 * run_start(n, size, t as int) ==> #[trigger] y@[r]
                    == folded_quad_out(w@, x@, d as int, r),
            forall|r: int|
                4 * run_start(n, size, t as int) <= r < y@.len() ==> #[trigger] y@[r]
                    == old(y)@[r],
        ensures
            t == nthreads || t * size >= n,
        decreases nthreads - t,
    {
        match chunk(nquads, nthreads, t) {
            None => {
                break ;
            },
            Some((q0, q1)) => {
                proof {
                    lemma_packed_quads_fit_less(w.len() as int, x.len() as int, rows as int, q1 as int, d as int);
                }
                let v = gemv_q4_v4_quads(w, x, sumx, q0, q1, d);
                let ghost before = y@;
                place(y, 4 * q0, &v);
                assert forall|r: int| 0 <= r < 4 * q1 implies #[trigger] y@[r]
                    == folded_quad_out(w@, x@, d as int, r) by {
                    if r >= 4 * q0 {
                        assert(v@[r - 4 * q0] == folded_quad_out(w@, x@, d as int, 4 * q0 + (r - 4 * q0)));
                    } else {
                        assert(before[r] == folded_quad_out(w@, x@, d as int, r));
                    }
                }
            },
        }
        t = t + 1;
    }
    proof {
        lemma_ceil_div(n, nthreads as int);
        assert(nthreads * size == size * nthreads) by (nonlinear_arith);
    }
}

// ------------------------------------------------------------------------ laws

/// Weight times activation in column `c` of row `r`.
pub open spec fn exact_term(w: Seq<i8>, x: Seq<i8>, d: int, r: int) -> spec_fn(int) -> int {
    |c: int| w[r * d + c] * x[c]
}

/// Row `r` of the matrix times the vector.
pub open spec fn exact_out(w: Seq<i8>, x: Seq<i8>, d: int, r: int) -> int {
    sum(d, exact_term(w, x, d, r))
}

/// Every weight fits a code.
pub open spec fn four_bit(w: Seq<i8>) -> bool {
    forall|i: int| 0 <= i < w.len() ==> -8 <= #[trigger] w[i] < 8
}

proof fn lemma_row_code(p: Seq<u8>, w: Seq<i8>, rows: int, d: int, r: int, c: int)
    requires
        is_row_packed(p, w, rows, d),
        four_bit(w),
        w.len() == rows * d,
        d % 32 == 0,
        0 <= r < rows,
        0 <= c < d,
    ensures
        row_code(p, row_at(d, r), c) == w[r * d + c] + 8,
{
    let k = 16 * (c / 32) + c % 16;
    lemma_rows_apart(d, r, r + 1);
    assert(p[row_at(d, r) + k] == q4_row_byte(w, d, r, k));
    assert(k / 16 == c / 32 && k % 16 == c % 16);
    let at = r * d + 32 * (c / 32) + c % 16;
    assert((rows - 1) * d + d == rows * d) by (nonlinear_arith);
    assert(0 <= r * d <= (rows - 1) * d) by (nonlinear_arith)
        requires
            0 <= r <= rows - 1,
            0 <= d,
    ;
    assert(-8 <= w[at] < 8 && -8 <= w[at + 16] < 8);
    lemma_codes_of(w, at);
    if c % 32 < 16 {
        assert(at == r * d + c);
    } else {
        assert(at + 16 == r * d + c);
    }
}

/// The two codes of a byte are those of its weights.
proof fn lemma_codes_of(w: Seq<i8>, at: int)
    requires
        -8 <= w[at] < 8,
        -8 <= w[at + 16] < 8,
    ensures
        q4_byte(w, at) % 16 == w[at] + 8,
        q4_byte(w, at) / 16 == w[at + 16] + 8,
{
}

proof fn lemma_quad_code(p: Seq<u8>, w: Seq<i8>, rows: int, d: int, r: int, c: int)
    requires
        is_quad_packed(p, w, rows, d),
        four_bit(w),
        w.len() == rows * d,
        rows % 4 == 0,
        d % 32 == 0,
        0 <= r < rows,
        0 <= c < d,
    ensures
        quad_code(p, (r / 4) * (2 * d), r % 4, c) == w[r * d + c] + 8,
{
    let q = r / 4;
    let k = 64 * (c / 32) + 16 * (r % 4) + c % 16;
    assert(k < 64 * (d / 32) && 64 * (d / 32) == 2 * d);
    lemma_div_mod_of(q, 2 * d, k);
    assert(k / 64 == c / 32 && (k / 16) % 4 == r % 4 && k % 16 == c % 16);
    assert((rows - 1) * d + d == rows * d) by (nonlinear_arith);
    assert(0 <= r * d <= (rows - 1) * d) by (nonlinear_arith)
        requires
            0 <= r <= rows - 1,
            0 <= d,
    ;
    assert(0 <= q * (2 * d) && q * (2 * d) + 2 * d <= rows * d / 2) by {
        lemma_quad_within(rows, d, q, 2 * d - 1);
    }
    assert(p[q * (2 * d) + k] == q4_quad_byte(w, rows, d, q * (2 * d) + k));
    let at = r * d + 32 * (c / 32) + c % 16;
    assert(4 * q + r % 4 == r);
    lemma_codes_of(w, at);
    if c % 32 < 16 {
        assert(at == r * d + c);
    } else {
        assert(at + 16 == r * d + c);
    }
}

/// `dot(w - 8, x)` is `dot(w, x) - 8 * sum(x)`.
proof fn lemma_fold(code: spec_fn(int) -> int, x: Seq<i8>, w: Seq<i8>, d: int, r: int)
    requires
        x.len() == d,
        forall|c: int| 0 <= c < d ==> #[trigger] code(c) == (w[r * d + c] + 8) * x[c],
    ensures
        sum(d, code) - 8 * sum(d, x_term(x)) == exact_out(w, x, d, r),
{
    let h = exact_term(w, x, d, r);
    let g = x_term(x);
    assert forall|c: int| 0 <= c < d implies #[trigger] h(c) == 1 * code(c) + (-8) * g(c) by {
        let (a, b) = (w[r * d + c] as int, x[c] as int);
        assert(code(c) == (a + 8) * b);
        assert(a * b == 1 * ((a + 8) * b) + (-8) * b) by (nonlinear_arith);
    }
    lemma_sum_linear(d, 1, code, -8, g, h);
}

/// The matrix-vector product of a row-packed matrix is exact, one row at a time
/// and four rows at a time with the bias folded out.
pub proof fn row_packed_product_is_exact(
    p: Seq<u8>,
    w: Seq<i8>,
    x: Seq<i8>,
    rows: int,
    d: int,
    r: int,
)
    requires
        is_row_packed(p, w, rows, d),
        four_bit(w),
        w.len() == rows * d,
        x.len() == d,
        d % 32 == 0,
        0 <= r < rows,
    ensures
        d % 64 == 0 ==> row_out(p, x, d, r) == wrap_i32(exact_out(w, x, d, r)),
        folded_row_out(p, x, d, r) == wrap_i32(exact_out(w, x, d, r)),
{
    let at = row_at(d, r);
    assert(stride_at(d, r) == at) by {
        assert(r == 4 * (r / 4) + r % 4);
        let (q, i, e) = (r / 4, r % 4, d / 2);
        assert(r * d == 2 * (2 * q * d + i * e)) by (nonlinear_arith)
            requires
                r == 4 * q + i,
                d == 2 * e,
        ;
    }
    let code = row_code_term(p, at, x);
    assert forall|c: int| 0 <= c < d implies #[trigger] code(c) == (w[r * d + c] + 8) * x[c] by {
        lemma_row_code(p, w, rows, d, r, c);
    }
    lemma_fold(code, x, w, d, r);
    assert(32 * (d / 32) == d);
    if d % 64 == 0 {
        assert(64 * (d / 64) == d);
        let f = row_weight_term(p, at, x);
        let h = exact_term(w, x, d, r);
        assert forall|c: int| 0 <= c < d implies #[trigger] f(c) == h(c) by {
            lemma_row_code(p, w, rows, d, r, c);
        }
        lemma_sum_same(d, f, h);
    }
}

/// The matrix-vector product of a quad-packed matrix is exact.
pub proof fn quad_packed_product_is_exact(
    p: Seq<u8>,
    w: Seq<i8>,
    x: Seq<i8>,
    rows: int,
    d: int,
    r: int,
)
    requires
        is_quad_packed(p, w, rows, d),
        four_bit(w),
        w.len() == rows * d,
        x.len() == d,
        rows % 4 == 0,
        d % 32 == 0,
        0 <= r < rows,
    ensures
        folded_quad_out(p, x, d, r) == wrap_i32(exact_out(w, x, d, r)),
{
    let code = quad_code_term(p, (r / 4) * (2 * d), r % 4, x);
    assert forall|c: int| 0 <= c < d implies #[trigger] code(c) == (w[r * d + c] + 8) * x[c] by {
        lemma_quad_code(p, w, rows, d, r, c);
    }
    lemma_fold(code, x, w, d, r);
    assert(32 * (d / 32) == d);
}

/// Up to 2^21 columns the exact product fits its 32-bit result, so that nothing
/// wraps.
pub proof fn product_fits(w: Seq<i8>, x: Seq<i8>, rows: int, d: int, r: int)
    requires
        four_bit(w),
        w.len() == rows * d,
        x.len() == d,
        d <= 0x1f_ffff,
        0 <= r < rows,
    ensures
        wrap_i32(exact_out(w, x, d, r)) == exact_out(w, x, d, r),
{
    let f = exact_term(w, x, d, r);
    assert((rows - 1) * d + d == rows * d) by (nonlinear_arith);
    assert(0 <= r * d <= (rows - 1) * d) by (nonlinear_arith)
        requires
            0 <= r <= rows - 1,
            0 <= d,
    ;
    assert forall|c: int| 0 <= c < d implies -1024 <= #[trigger] f(c) <= 1024 by {
        assert(-8 <= w[r * d + c] < 8);
        lemma_product_bounds(w[r * d + c] as int, x[c] as int, 8, 128);
    }
    lemma_sum_bounds(d, f, -1024, 1024);
    lemma_wrap_small(exact_out(w, x, d, r));
}

/// Folding the bias of eight out of the loop changes nothing: over whole pairs
/// of blocks, and activations as many as the columns, `gemv_q4_v2` and
/// `gemv_q4_v3` give each row what `gemv_q4` gives it, whatever the bytes.
pub proof fn folding_changes_nothing(p: Seq<u8>, x: Seq<i8>, d: int, r: int)
    requires
        d % 64 == 0,
        0 <= d == x.len(),
        0 <= r,
    ensures
        row_out(p, x, d, r) == folded_row_out(p, x, d, r),
{
    assert(64 * (d / 64) == d && 32 * (d / 32) == d);
    assert(stride_at(d, r) == row_at(d, r)) by {
        let (h, q, i) = (d / 2, r / 4, r % 4);
        assert(r * d == 2 * (r * h)) by (nonlinear_arith)
            requires
                d == 2 * h,
        ;
        assert(2 * q * d + i * h == r * h) by (nonlinear_arith)
            requires
                d == 2 * h,
                r == 4 * q + i,
        ;
    }
    let at = row_at(d, r);
    let (code, g, h) = (row_code_term(p, at, x), x_term(x), row_weight_term(p, at, x));
    assert forall|c: int| 0 <= c < d implies #[trigger] h(c) == 1 * code(c) + (-8) * g(c) by {
        let (a, b) = (row_code(p, at, c), x[c] as int);
        assert((a - 8) * b == 1 * (a * b) + (-8) * b) by (nonlinear_arith);
    }
    lemma_sum_linear(d, 1, code, -8, g, h);
}

/// The quad layout holds the bytes of the row layout, regrouped: byte `i` of block
/// `b` of row `4 * q + r`.
pub proof fn quads_regroup_rows(
    quads: Seq<u8>,
    p: Seq<u8>,
    w: Seq<i8>,
    rows: int,
    d: int,
    q: int,
    r: int,
    b: int,
    i: int,
)
    requires
        is_quad_packed(quads, w, rows, d),
        is_row_packed(p, w, rows, d),
        0 <= q < rows / 4,
        0 <= r < 4,
        0 <= b < d / 32,
        0 <= i < 16,
    ensures
        quads[q * (2 * d) + 64 * b + 16 * r + i] == p[row_at(d, 4 * q + r) + 16 * b + i],
{
    let (row, k, kq) = (4 * q + r, 16 * b + i, 64 * b + 16 * r + i);
    assert(k / 16 == b && k % 16 == i);
    assert(kq / 64 == b && (kq / 16) % 4 == r && kq % 16 == i);
    lemma_div_mod_of(q, 2 * d, kq);
    lemma_quad_within(rows, d, q, kq);
    lemma_row_within(d, row, k);
    assert(p[row_at(d, row) + k] == q4_row_byte(w, d, row, k));
    assert(quads[q * (2 * d) + kq] == q4_quad_byte(w, rows, d, q * (2 * d) + kq));
    assert(row * d + 32 * b + i == (4 * q + r) * d + 32 * b + i);
}

/// Rows beyond the last whole quad are left out of the quad layout: its bytes are
/// those of the whole quads alone, which `whole` holds, and zero after them.
pub proof fn leftover_rows_are_zero(
    quads: Seq<u8>,
    whole: Seq<u8>,
    w: Seq<i8>,
    rows: int,
    d: int,
    at: int,
)
    requires
        is_quad_packed(quads, w, rows, d),
        is_quad_packed(whole, w, 4 * (rows / 4), d),
        0 <= rows,
        0 < d,
        0 <= at < quads.len(),
    ensures
        whole.len() == rows / 4 * (2 * d),
        quads[at] == if at < rows / 4 * (2 * d) {
            whole[at]
        } else {
            0
        },
{
    let q = rows / 4;
    assert(4 * q * d == 2 * (q * (2 * d))) by (nonlinear_arith);
    assert(quads[at] == q4_quad_byte(w, rows, d, at));
    if at < q * (2 * d) {
        assert(whole[at] == q4_quad_byte(w, 4 * q, d, at));
    } else {
        assert(at / (2 * d) >= q) by (nonlinear_arith)
            requires
                q * (2 * d) <= at,
                0 < d,
        ;
    }
}

proof fn lemma_quad_within(rows: int, d: int, q: int, k: int)
    requires
        0 <= q < rows / 4,
        0 <= k < 2 * d,
    ensures
        0 <= q * (2 * d) + k < rows * d / 2,
{
    assert(0 <= q * (2 * d) && 2 * (q * (2 * d)) + 4 * d <= rows * d) by (nonlinear_arith)
        requires
            0 <= q,
            4 * q + 4 <= rows,
            0 <= d,
    ;
}

proof fn lemma_row_within(d: int, r: int, k: int)
    requires
        0 <= r,
        0 <= k < 16 * (d / 32),
    ensures
        k < row_at(d, r + 1) - row_at(d, r),
{
    assert((r + 1) * d == r * d + d) by (nonlinear_arith);
}

} // verus!
