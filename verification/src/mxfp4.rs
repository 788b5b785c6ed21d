//! MXFP4 matrices on integer hardware.
//!
//! A block of 32 weights is 17 bytes: an exponent byte `e` and sixteen bytes of
//! 4-bit codes, columns `0 .. 16` in the low and `16 .. 32` in the high halves.
//! A code is a sign, two exponent bits and a mantissa bit; its values are 0, 0.5,
//! 1, 1.5, 2, 3, 4 and 6, and the block's scale is `2^(e - 127)`. Twice a value is
//! an integer, so that a weight is that integer times `2^(e - 128)` and dot
//! products with 8-bit activations are exact up to the block's power of two.
use crate::arith::{lemma_div_mod_of, lemma_product_bounds};
use crate::bits::{hi_nibble, lo_nibble};
use crate::half::single_magnitude;
use crate::lanes::{lane, paired, quarter, scaled, Lanes};
use crate::scalar::Scalar;
use vstd::arithmetic::power2::{lemma2_to64, lemma_pow2_adds, pow2};
use vstd::prelude::*;

verus! {

/// Twice the value of a 4-bit code: the sign in the top bit, then two bits of
/// exponent and one of mantissa; exponent 0 is subnormal.
pub open spec fn mx_value(code: int) -> int {
    let m = code % 8;
    let magnitude = if m / 2 == 0 {
        m % 2
    } else if m / 2 == 1 {
        2 + m % 2
    } else if m / 2 == 2 {
        2 * (2 + m % 2)
    } else {
        4 * (2 + m % 2)
    };
    if code < 8 {
        magnitude
    } else {
        -magnitude
    }
}

/// Twice the value of a 4-bit code.
pub fn mx_lookup(code: u8) -> (r: i8)
    requires
        code < 16,
    ensures
        r == mx_value(code as int),
        -12 <= r <= 12,
{
    match code {
        0 => 0,
        1 => 1,
        2 => 2,
        3 => 3,
        4 => 4,
        5 => 6,
        6 => 8,
        7 => 12,
        8 => 0,
        9 => -1,
        10 => -2,
        11 => -3,
        12 => -4,
        13 => -6,
        14 => -8,
        _ => -12,
    }
}

/// The bits of what a block's doubled values are to be multiplied with: the block's
/// scale is `2^(e - 127)`, and the doubling takes one more off.
pub open spec fn power_of(e: int) -> int {
    if e == 0 {
        0x20_0000
    } else if e == 1 {
        0x40_0000
    } else {
        (e - 1) * 0x80_0000
    }
}

/// The bits are those of `2^(e - 128)`, which is `2^(e + 21)` units of `2^-149`.
pub proof fn powers_are_exact(e: int)
    requires
        0 <= e < 256,
    ensures
        0 <= power_of(e) < 0x7f80_0000,
        single_magnitude(power_of(e) as u32) == pow2((e + 21) as nat),
{
    lemma2_to64();
    if e >= 2 {
        let bits = power_of(e);
        assert(bits / 0x80_0000 == e - 1 && bits % 0x80_0000 == 0);
        lemma_pow2_adds(23, (e - 2) as nat);
    }
}

/// The table of what the doubled values of a block are to be multiplied with, by
/// the exponent byte.
pub fn exp_tbl<S: Scalar>() -> (r: Vec<S>)
    ensures
        r@.len() == 256,
        forall|e: int| 0 <= e < 256 ==> #[trigger] r@[e] == S::of_bits_spec(power_of(e) as u32),
{
    let mut out: Vec<S> = Vec::new();
    for e in 0..256usize
        invariant
            out@.len() == e,
            forall|k: int|
                0 <= k < e ==> #[trigger] out@[k] == S::of_bits_spec(power_of(k) as u32),
    {
        let bits: u32 = if e == 0 {
            0x20_0000
        } else if e == 1 {
            0x40_0000
        } else {
            (e as u32 - 1) * 0x80_0000
        };
        out.push(S::of_bits(bits));
    }
    out
}

/// The code of column `i` of a block whose code bytes start at `at`.
pub open spec fn mx_code(nib: Seq<u8>, at: int, i: int) -> int {
    if i < 16 {
        nib[at + i] as int % 16
    } else {
        nib[at + i - 16] as int / 16
    }
}

/// Doubled weight times activation, for column `i` of a block whose code bytes
/// start at `at` and whose activations start at `xo`.
pub open spec fn mx_term(nib: Seq<u8>, at: int, x: Seq<i8>, xo: int) -> spec_fn(int) -> int {
    |i: int| mx_value(mx_code(nib, at, i)) * x[xo + i]
}

/// Doubled weight times activation, for column `i` of a block.
fn mx_product(nib: &[u8], at: usize, x: &[i8], xo: usize, i: usize) -> (r: i32)
    requires
        at + 16 <= nib.len(),
        xo + 32 <= x.len(),
        i < 32,
    ensures
        r == mx_term(nib@, at as int, x@, xo as int)(i as int),
        -1536 <= r <= 1536,
{
    let code: u8 = if i < 16 {
        lo_nibble(nib[at + i])
    } else {
        hi_nibble(nib[at + (i - 16)])
    };
    let v: i8 = mx_lookup(code);
    proof {
        lemma_product_bounds(v as int, x@[xo + i] as int, 12, 128);
    }
    (v as i32) * (x[xo + i] as i32)
}

/// Quarter `i` of a block.
fn mx_quarter(nib: &[u8], at: usize, x: &[i8], xo: usize, i: usize) -> (r: i32)
    requires
        at + 16 <= nib.len(),
        xo + 32 <= x.len(),
        i < 8,
    ensures
        r == quarter(mx_term(nib@, at as int, x@, xo as int), i as int),
        -6144 <= r <= 6144,
{
    proof {
        reveal(quarter);
    }
    mx_product(nib, at, x, xo, 4 * i) + mx_product(nib, at, x, xo, 4 * i + 1) + mx_product(
        nib,
        at,
        x,
        xo,
        4 * i + 2,
    ) + mx_product(nib, at, x, xo, 4 * i + 3)
}

/// Lane `l` of a block's doubled weights times its activations.
pub open spec fn mx_lane(nib: Seq<u8>, at: int, x: Seq<i8>, xo: int, l: int) -> int {
    lane(mx_term(nib, at, x, xo), l)
}

/// The four lanes of a block whose code bytes start at `at` and whose activations
/// start at `xo`.
pub fn mx_block_lanes(nib: &[u8], at: usize, x: &[i8], xo: usize) -> (r: (i32, i32, i32, i32))
    requires
        at + 16 <= nib.len(),
        xo + 32 <= x.len(),
    ensures
        r.0 == mx_lane(nib@, at as int, x@, xo as int, 0),
        r.1 == mx_lane(nib@, at as int, x@, xo as int, 1),
        r.2 == mx_lane(nib@, at as int, x@, xo as int, 2),
        r.3 == mx_lane(nib@, at as int, x@, xo as int, 3),
{
    (
        mx_quarter(nib, at, x, xo, 0) + mx_quarter(nib, at, x, xo, 4),
        mx_quarter(nib, at, x, xo, 1) + mx_quarter(nib, at, x, xo, 5),
        mx_quarter(nib, at, x, xo, 2) + mx_quarter(nib, at, x, xo, 6),
        mx_quarter(nib, at, x, xo, 3) + mx_quarter(nib, at, x, xo, 7),
    )
}

// ---------------------------------------------------------------- native layout

/// Where block `b` of row `r` starts, in rows of `blocks` blocks.
pub open spec fn block_at(blocks: int, r: int, b: int) -> int {
    (r * blocks + b) * 17
}

/// Lane `l` after the first `n` blocks of row `r`: each block adds its lane in one
/// step, times its power of two times the scale of its activations. `pow[e]` is
/// the power `2^(e - 128)`.
pub open spec fn mx_row_lane<S: Scalar>(
    raw: Seq<u8>,
    blocks: int,
    r: int,
    x: Seq<i8>,
    xs: Seq<S>,
    pow: Seq<S>,
    l: int,
    n: int,
) -> S
    decreases n,
{
    if n <= 0 {
        S::zero_spec()
    } else {
        let at = block_at(blocks, r, n - 1);
        scaled(
            mx_row_lane(raw, blocks, r, x, xs, pow, l, n - 1),
            mx_lane(raw, at + 1, x, 32 * (n - 1), l),
            pow[raw[at] as int].times_spec(xs[n - 1]),
        )
    }
}

/// Row `r` times the activations: the lanes of its first `n` blocks, added in
/// pairs.
pub open spec fn mx_row_value<S: Scalar>(
    raw: Seq<u8>,
    blocks: int,
    r: int,
    x: Seq<i8>,
    xs: Seq<S>,
    pow: Seq<S>,
    n: int,
) -> S {
    paired(
        mx_row_lane(raw, blocks, r, x, xs, pow, 0, n),
        mx_row_lane(raw, blocks, r, x, xs, pow, 1, n),
        mx_row_lane(raw, blocks, r, x, xs, pow, 2, n),
        mx_row_lane(raw, blocks, r, x, xs, pow, 3, n),
    )
}

/// Lane `l` after the first `n` blocks of row `r`, for activations that have one
/// scale, before that scale is multiplied in.
pub open spec fn mx_plain_lane<S: Scalar>(
    raw: Seq<u8>,
    blocks: int,
    r: int,
    x: Seq<i8>,
    pow: Seq<S>,
    l: int,
    n: int,
) -> S
    decreases n,
{
    if n <= 0 {
        S::zero_spec()
    } else {
        let at = block_at(blocks, r, n - 1);
        scaled(
            mx_plain_lane(raw, blocks, r, x, pow, l, n - 1),
            mx_lane(raw, at + 1, x, 32 * (n - 1), l),
            pow[raw[at] as int],
        )
    }
}

/// Row `r` times activations that have one scale, before that scale is multiplied
/// in: the lanes of its first `n` blocks, added in pairs.
pub open spec fn mx_plain_value<S: Scalar>(
    raw: Seq<u8>,
    blocks: int,
    r: int,
    x: Seq<i8>,
    pow: Seq<S>,
    n: int,
) -> S {
    paired(
        mx_plain_lane(raw, blocks, r, x, pow, 0, n),
        mx_plain_lane(raw, blocks, r, x, pow, 1, n),
        mx_plain_lane(raw, blocks, r, x, pow, 2, n),
        mx_plain_lane(raw, blocks, r, x, pow, 3, n),
    )
}

proof fn lemma_block_at(blocks: int, rows: int, r: int, b: int)
    requires
        0 <= r < rows,
        0 <= b < blocks,
    ensures
        0 <= r * blocks,
        r * blocks + b < rows * blocks,
        0 <= block_at(blocks, r, b),
        block_at(blocks, r, b) + 17 <= rows * blocks * 17,
{
    assert(0 <= r * blocks) by (nonlinear_arith)
        requires
            0 <= r,
            0 <= blocks,
    ;
    assert(r * blocks + b + 1 <= rows * blocks) by (nonlinear_arith)
        requires
            r + 1 <= rows,
            b + 1 <= blocks,
            0 <= blocks,
    ;
}

/// Row `r` of a matrix in the native layout, times the activations.
pub fn dot_mxfp4_i8<S: Scalar>(
    raw: &[u8],
    r: usize,
    xq: &[i8],
    xsb: &[S],
    blocks: usize,
    pow: &[S],
) -> (v: S)
    requires
        (r + 1) * blocks * 17 <= raw.len(),
        32 * blocks <= xq.len(),
        blocks <= xsb.len(),
        pow.len() == 256,
    ensures
        v == mx_row_value(raw@, blocks as int, r as int, xq@, xsb@, pow@, blocks as int),
{
    let mut sums: Lanes<S> = Lanes::zero();
    let ghost (bl, ri) = (blocks as int, r as int);
    for b in 0..blocks
        invariant
            bl == blocks && ri == r,
            (r + 1) * blocks * 17 <= raw.len(),
            32 * blocks <= xq.len(),
            blocks <= xsb.len(),
            pow.len() == 256,
            sums.a == mx_row_lane(raw@, bl, ri, xq@, xsb@, pow@, 0, b as int),
            sums.b == mx_row_lane(raw@, bl, ri, xq@, xsb@, pow@, 1, b as int),
            sums.c == mx_row_lane(raw@, bl, ri, xq@, xsb@, pow@, 2, b as int),
            sums.d == mx_row_lane(raw@, bl, ri, xq@, xsb@, pow@, 3, b as int),
    {
        proof {
            lemma_block_at(blocks as int, r + 1, r as int, b as int);
            assert(raw@.len() == raw.len() && xsb@.len() == xsb.len() && pow@.len() == pow.len());
        }
        let at: usize = (r * blocks + b) * 17;
        let dots = mx_block_lanes(raw, at + 1, xq, 32 * b);
        sums = sums.grow(dots, pow[raw[at] as usize].times(xsb[b]));
    }
    sums.total()
}

/// The first `rows` rows of expert `e` in a matrix that stacks experts of `d`
/// rows each, times activations that all have the scale `xs`, plus the biases.
pub fn matvec_mxfp4_i8<S: Scalar>(
    raw: &[u8],
    e: usize,
    d: usize,
    xq: &[i8],
    xs: S,
    bias: &[S],
    rows: usize,
    blocks: usize,
    pow: &[S],
) -> (out: Vec<S>)
    requires
        (e * d + rows) * blocks * 17 <= raw.len(),
        e * d + rows <= usize::MAX,
        32 * blocks <= xq.len(),
        rows <= bias.len(),
        pow.len() == 256,
    ensures
        out.len() == rows,
        forall|r: int|
            0 <= r < rows ==> #[trigger] out@[r] == mx_plain_value(
                raw@,
                blocks as int,
                e * d + r,
                xq@,
                pow@,
                blocks as int,
            ).times_spec(xs).plus_spec(bias@[r]),
{
    let mut out: Vec<S> = Vec::new();
    assert(0 <= e * d) by (nonlinear_arith)
        requires
            0 <= e,
            0 <= d,
    ;
    let base: usize = e * d;
    for r in 0..rows
        invariant
            base == e * d,
            (e * d + rows) * blocks * 17 <= raw.len(),
            e * d + rows <= usize::MAX,
            32 * blocks <= xq.len(),
            rows <= bias.len(),
            pow.len() == 256,
            out@.len() == r,
            forall|k: int|
                0 <= k < r ==> #[trigger] out@[k] == mx_plain_value(
                    raw@,
                    blocks as int,
                    e * d + k,
                    xq@,
                    pow@,
                    blocks as int,
                ).times_spec(xs).plus_spec(bias@[k]),
    {
        assert((base + r + 1) * blocks <= (base + rows) * blocks) by (nonlinear_arith)
            requires
                r + 1 <= rows,
                0 <= blocks,
        ;
        let mut sums: Lanes<S> = Lanes::zero();
        let ghost (bl, ri) = (blocks as int, base + r);
        for b in 0..blocks
            invariant
                bl == blocks && ri == base + r,
                (base + r + 1) * blocks * 17 <= raw.len(),
                32 * blocks <= xq.len(),
                pow.len() == 256,
                base + r < usize::MAX,
                sums.a == mx_plain_lane(raw@, bl, ri, xq@, pow@, 0, b as int),
                sums.b == mx_plain_lane(raw@, bl, ri, xq@, pow@, 1, b as int),
                sums.c == mx_plain_lane(raw@, bl, ri, xq@, pow@, 2, b as int),
                sums.d == mx_plain_lane(raw@, bl, ri, xq@, pow@, 3, b as int),
        {
            proof {
                lemma_block_at(blocks as int, base + r + 1, base + r, b as int);
                assert(raw@.len() == raw.len() && pow@.len() == pow.len());
            }
            let at: usize = ((base + r) * blocks + b) * 17;
            let dots = mx_block_lanes(raw, at + 1, xq, 32 * b);
            sums = sums.grow(dots, pow[raw[at] as usize]);
        }
        assert(bias@.len() == bias.len());
        out.push(sums.total().times(xs).plus(bias[r]));
    }
    out
}

/// Weight `c` of row `r`.
pub open spec fn mx_weight<S: Scalar>(raw: Seq<u8>, blocks: int, r: int, c: int, pow: Seq<S>) -> S {
    let at = block_at(blocks, r, c / 32);
    S::of_int_spec(mx_value(mx_code(raw, at + 1, c % 32)) as i64).times_spec(pow[raw[at] as int])
}

/// The weights of expert `e` in a matrix that stacks experts of `d` rows each, row
/// by row.
pub fn deq_expert<S: Scalar>(raw: &[u8], e: usize, d: usize, blocks: usize, pow: &[S]) -> (out: Vec<S>)
    requires
        (e * d + d) * blocks * 17 <= raw.len(),
        e * d + d <= usize::MAX,
        d * (32 * blocks) <= usize::MAX,
        pow.len() == 256,
    ensures
        out.len() == d * (32 * blocks),
        forall|r: int, c: int|
            0 <= r < d && 0 <= c < 32 * blocks ==> #[trigger] out@[r * (32 * blocks) + c]
                == mx_weight(raw@, blocks as int, e * d + r, c, pow@),
{
    assert(0 <= e * d) by (nonlinear_arith)
        requires
            0 <= e,
            0 <= d,
    ;
    assert(0 * (32 * blocks) == 0) by (nonlinear_arith);
    let base: usize = e * d;
    let mut out: Vec<S> = Vec::new();
    for r in 0..d
        invariant
            base == e * d,
            (base + d) * blocks * 17 <= raw.len(),
            base + d <= usize::MAX,
            d * (32 * blocks) <= usize::MAX,
            pow.len() == 256,
            out@.len() == r * (32 * blocks),
            forall|k: int, c: int|
                0 <= k < r && 0 <= c < 32 * blocks ==> #[trigger] out@[k * (32 * blocks) + c]
                    == mx_weight(raw@, blocks as int, base + k, c, pow@),
    {
        proof {
            assert((base + r + 1) * blocks <= (base + d) * blocks) by (nonlinear_arith)
                requires
                    r + 1 <= d,
                    0 <= blocks,
            ;
            assert((r + 1) * (32 * blocks) == r * (32 * blocks) + 32 * blocks) by (nonlinear_arith);
            assert((r + 1) * (32 * blocks) <= d * (32 * blocks)) by (nonlinear_arith)
                requires
                    r + 1 <= d,
                    0 <= blocks,
            ;
            assert(0 <= r * (32 * blocks)) by (nonlinear_arith)
                requires
                    0 <= r,
                    0 <= blocks,
            ;
        }
        let ghost before = out@;
        let width: usize = 32 * blocks;
        for c in 0..width
            invariant
                width == 32 * blocks,
                (base + r + 1) * blocks * 17 <= raw.len(),
                base + r < usize::MAX,
                pow.len() == 256,
                out@.len() == before.len() + c,
                forall|p: int| 0 <= p < before.len() ==> #[trigger] out@[p] == before[p],
                forall|k: int|
                    0 <= k < c ==> #[trigger] out@[before.len() + k] == mx_weight(
                        raw@,
                        blocks as int,
                        base + r,
                        k,
                        pow@,
                    ),
        {
            let (b, i): (usize, usize) = (c / 32, c % 32);
            proof {
                lemma_block_at(blocks as int, base + r + 1, base + r, b as int);
                assert(raw@.len() == raw.len() && pow@.len() == pow.len());
            }
            let at: usize = ((base + r) * blocks + b) * 17;
            let code: u8 = if i < 16 {
                lo_nibble(raw[at + 1 + i])
            } else {
                hi_nibble(raw[at + 1 + (i - 16)])
            };
            out.push(S::of_int(mx_lookup(code) as i64).times(pow[raw[at] as usize]));
        }
        proof {
            assert forall|k: int, c: int|
                0 <= k < r + 1 && 0 <= c < 32 * blocks implies #[trigger] out@[k * (32 * blocks) + c]
                == mx_weight(raw@, blocks as int, base + k, c, pow@) by {
                if k < r {
                    assert((k + 1) * (32 * blocks) <= r * (32 * blocks)) by (nonlinear_arith)
                        requires
                            k + 1 <= r,
                            0 <= blocks,
                    ;
                    assert((k + 1) * (32 * blocks) == k * (32 * blocks) + 32 * blocks)
                        by (nonlinear_arith);
                    assert(0 <= k * (32 * blocks)) by (nonlinear_arith)
                        requires
                            0 <= k,
                            0 <= blocks,
                    ;
                    assert(before[k * (32 * blocks) + c] == out@[k * (32 * blocks) + c]);
                } else {
                    assert(out@[before.len() + c] == mx_weight(
                        raw@,
                        blocks as int,
                        base + r,
                        c,
                        pow@,
                    ));
                }
            }
        }
    }
    out
}

// ------------------------------------------------------------------ quad layout

/// A matrix with four rows interleaved: `nib` holds, for each quad and block,
/// sixteen code bytes of each of the four rows, and `exps` the four exponents.
pub struct QuadMx {
    pub nib: Vec<u8>,
    pub exps: Vec<u8>,
}

/// The row of a quad-layout byte: `g` counts blocks over all quads, `r` is the
/// row within the quad.
pub open spec fn quad_row(blocks: int, g: int, r: int) -> int {
    4 * (g / blocks) + r
}

/// Code byte `p` of the quad layout.
pub open spec fn quad_nib(raw: Seq<u8>, rows: int, blocks: int, p: int) -> u8 {
    let g = p / 64;
    if g < rows / 4 * blocks {
        raw[block_at(blocks, quad_row(blocks, g, (p / 16) % 4), g % blocks) + 1 + p % 16]
    } else {
        0
    }
}

/// Exponent `p` of the quad layout.
pub open spec fn quad_exp(raw: Seq<u8>, rows: int, blocks: int, p: int) -> u8 {
    let g = p / 4;
    if g < rows / 4 * blocks {
        raw[block_at(blocks, quad_row(blocks, g, p % 4), g % blocks)]
    } else {
        0
    }
}

impl QuadMx {
    /// This is the matrix `raw` of `rows` rows of `blocks` blocks.
    pub open spec fn of(&self, raw: Seq<u8>, rows: int, blocks: int) -> bool {
        &&& self.nib@.len() == rows * blocks * 16
        &&& self.exps@.len() == rows * blocks
        &&& forall|p: int|
            0 <= p < self.nib@.len() ==> #[trigger] self.nib@[p] == quad_nib(raw, rows, blocks, p)
        &&& forall|p: int|
            0 <= p < self.exps@.len() ==> #[trigger] self.exps@[p] == quad_exp(
                raw,
                rows,
                blocks,
                p,
            )
    }
}

proof fn lemma_quad_group(rows: int, blocks: int, g: int, r: int)
    requires
        0 <= g < rows / 4 * blocks,
        0 <= r < 4,
        0 <= rows,
        0 <= blocks,
    ensures
        0 < blocks,
        0 <= g / blocks < rows / 4,
        0 <= g % blocks < blocks,
        0 <= quad_row(blocks, g, r) < rows,
{
    assert(0 < blocks) by (nonlinear_arith)
        requires
            0 <= g < rows / 4 * blocks,
            0 <= blocks,
    ;
    vstd::arithmetic::div_mod::lemma_fundamental_div_mod(g, blocks);
    vstd::arithmetic::div_mod::lemma_mod_bound(g, blocks);
    let q = g / blocks;
    assert(q < rows / 4) by (nonlinear_arith)
        requires
            blocks * q <= g,
            g < rows / 4 * blocks,
            0 < blocks,
    ;
    assert(q >= 0) by (nonlinear_arith)
        requires
            blocks * q + blocks > g,
            g >= 0,
            0 < blocks,
    ;
}

/// Byte `k` of the block that group `g` and row `r` of the quad name.
fn raw_byte(raw: &[u8], rows: usize, blocks: usize, g: usize, r: usize, k: usize) -> (v: u8)
    requires
        rows * blocks * 17 <= raw.len(),
        g < rows / 4 * blocks,
        r < 4,
        k < 17,
    ensures
        v == raw@[block_at(
            blocks as int,
            quad_row(blocks as int, g as int, r as int),
            g as int % blocks as int,
        ) + k],
{
    proof {
        lemma_quad_group(rows as int, blocks as int, g as int, r as int);
        lemma_block_at(
            blocks as int,
            rows as int,
            quad_row(blocks as int, g as int, r as int),
            g as int % blocks as int,
        );
        assert(raw@.len() == raw.len());
    }
    let row: usize = 4 * (g / blocks) + r;
    raw[(row * blocks + g % blocks) * 17 + k]
}

/// Repacks a matrix from the native into the quad layout. Rows beyond the last
/// whole quad are left out; their bytes are zero.
pub fn repack_mx(raw: &[u8], rows: usize, blocks: usize) -> (m: QuadMx)
    requires
        rows * blocks * 17 <= raw.len(),
    ensures
        m.of(raw@, rows as int, blocks as int),
{
    proof {
        assert(raw@.len() == raw.len());
        assert(0 <= rows * blocks) by (nonlinear_arith)
            requires
                0 <= rows,
                0 <= blocks,
        ;
        assert(rows / 4 * blocks <= rows * blocks) by (nonlinear_arith)
            requires
                rows / 4 <= rows,
                0 <= blocks,
        ;
        assert(0 <= rows as int / 4 * blocks) by (nonlinear_arith)
            requires
                0 <= rows as int / 4,
                0 <= blocks,
        ;
    }
    let groups: usize = rows / 4 * blocks;
    let (mut nib, mut exps): (Vec<u8>, Vec<u8>) = (Vec::new(), Vec::new());
    for p in 0..rows * blocks * 16
        invariant
            rows * blocks * 17 <= raw.len(),
            groups == rows as int / 4 * blocks,
            nib@.len() == p,
            forall|i: int|
                0 <= i < p ==> #[trigger] nib@[i] == quad_nib(raw@, rows as int, blocks as int, i),
    {
        if p / 64 < groups {
            nib.push(raw_byte(raw, rows, blocks, p / 64, (p / 16) % 4, 1 + p % 16));
        } else {
            nib.push(0);
        }
    }
    for p in 0..rows * blocks
        invariant
            rows * blocks * 17 <= raw.len(),
            groups == rows as int / 4 * blocks,
            exps@.len() == p,
            forall|i: int|
                0 <= i < p ==> #[trigger] exps@[i] == quad_exp(raw@, rows as int, blocks as int, i),
    {
        if p / 4 < groups {
            exps.push(raw_byte(raw, rows, blocks, p / 4, p % 4, 0));
        } else {
            exps.push(0);
        }
    }
    QuadMx { nib, exps }
}

/// Lane `l` after the first `n` blocks of row `i` of quad `q`.
pub open spec fn quad_lane<S: Scalar>(
    nib: Seq<u8>,
    exps: Seq<u8>,
    blocks: int,
    q: int,
    i: int,
    x: Seq<i8>,
    xs: Seq<S>,
    pow: Seq<S>,
    l: int,
    n: int,
) -> S
    decreases n,
{
    if n <= 0 {
        S::zero_spec()
    } else {
        let g = q * blocks + n - 1;
        scaled(
            quad_lane(nib, exps, blocks, q, i, x, xs, pow, l, n - 1),
            mx_lane(nib, 64 * g + 16 * i, x, 32 * (n - 1), l),
            pow[exps[4 * g + i] as int].times_spec(xs[n - 1]),
        )
    }
}

/// Row `i` of quad `q` times the activations: the lanes of its first `n` blocks,
/// added in pairs.
pub open spec fn quad_value<S: Scalar>(
    nib: Seq<u8>,
    exps: Seq<u8>,
    blocks: int,
    q: int,
    i: int,
    x: Seq<i8>,
    xs: Seq<S>,
    pow: Seq<S>,
    n: int,
) -> S {
    paired(
        quad_lane(nib, exps, blocks, q, i, x, xs, pow, 0, n),
        quad_lane(nib, exps, blocks, q, i, x, xs, pow, 1, n),
        quad_lane(nib, exps, blocks, q, i, x, xs, pow, 2, n),
        quad_lane(nib, exps, blocks, q, i, x, xs, pow, 3, n),
    )
}

/// Row `i` of quad `q` times the activations.
fn quad_row_dot<S: Scalar>(
    nib: &[u8],
    exps: &[u8],
    q: usize,
    i: usize,
    xq: &[i8],
    xsb: &[S],
    blocks: usize,
    pow: &[S],
) -> (r: S)
    requires
        (q + 1) * blocks * 64 <= nib.len(),
        (q + 1) * blocks * 4 <= exps.len(),
        i < 4,
        32 * blocks <= xq.len(),
        blocks <= xsb.len(),
        pow.len() == 256,
    ensures
        r == quad_value(
            nib@,
            exps@,
            blocks as int,
            q as int,
            i as int,
            xq@,
            xsb@,
            pow@,
            blocks as int,
        ),
{
    let mut sums: Lanes<S> = Lanes::zero();
    let ghost (bl, qi, ii) = (blocks as int, q as int, i as int);
    for b in 0..blocks
        invariant
            bl == blocks && qi == q && ii == i,
            (q + 1) * blocks * 64 <= nib.len(),
            (q + 1) * blocks * 4 <= exps.len(),
            i < 4,
            32 * blocks <= xq.len(),
            blocks <= xsb.len(),
            pow.len() == 256,
            sums.a == quad_lane(nib@, exps@, bl, qi, ii, xq@, xsb@, pow@, 0, b as int),
            sums.b == quad_lane(nib@, exps@, bl, qi, ii, xq@, xsb@, pow@, 1, b as int),
            sums.c == quad_lane(nib@, exps@, bl, qi, ii, xq@, xsb@, pow@, 2, b as int),
            sums.d == quad_lane(nib@, exps@, bl, qi, ii, xq@, xsb@, pow@, 3, b as int),
    {
        proof {
            lemma_block_at(blocks as int, q + 1, q as int, b as int);
            assert(nib@.len() == nib.len() && xsb@.len() == xsb.len() && pow@.len() == pow.len());
        }
        let g: usize = q * blocks + b;
        let dots = mx_block_lanes(nib, 64 * g + 16 * i, xq, 32 * b);
        sums = sums.grow(dots, pow[exps[4 * g + i] as usize].times(xsb[b]));
    }
    sums.total()
}

/// Quad `q` of a repacked matrix, times the activations: the values of its four
/// rows.
pub fn dot4_mx_i8<S: Scalar>(
    nib: &[u8],
    exps: &[u8],
    q: usize,
    xq: &[i8],
    xsb: &[S],
    blocks: usize,
    pow: &[S],
) -> (out: [S; 4])
    requires
        (q + 1) * blocks * 64 <= nib.len(),
        (q + 1) * blocks * 4 <= exps.len(),
        32 * blocks <= xq.len(),
        blocks <= xsb.len(),
        pow.len() == 256,
    ensures
        forall|i: int|
            0 <= i < 4 ==> #[trigger] out@[i] == quad_value(
                nib@,
                exps@,
                blocks as int,
                q as int,
                i,
                xq@,
                xsb@,
                pow@,
                blocks as int,
            ),
{
    [
        quad_row_dot(nib, exps, q, 0, xq, xsb, blocks, pow),
        quad_row_dot(nib, exps, q, 1, xq, xsb, blocks, pow),
        quad_row_dot(nib, exps, q, 2, xq, xsb, blocks, pow),
        quad_row_dot(nib, exps, q, 3, xq, xsb, blocks, pow),
    ]
}

/// Repacking moves the exponent and the codes of a block and changes neither.
proof fn lemma_repacked_block(
    m: QuadMx,
    raw: Seq<u8>,
    x: Seq<i8>,
    rows: int,
    blocks: int,
    q: int,
    b: int,
    r: int,
)
    requires
        m.of(raw, rows, blocks),
        0 <= q < rows / 4,
        0 <= b < blocks,
        0 <= r < 4,
    ensures
        m.exps@[4 * (q * blocks + b) + r] == raw[block_at(blocks, 4 * q + r, b)],
        forall|l: int|
            0 <= l < 4 ==> #[trigger] mx_lane(
                m.nib@,
                64 * (q * blocks + b) + 16 * r,
                x,
                32 * b,
                l,
            ) == mx_lane(raw, block_at(blocks, 4 * q + r, b) + 1, x, 32 * b, l),
{
    let g = q * blocks + b;
    lemma_div_mod_of(q, blocks, b);
    lemma_block_at(blocks, rows / 4, q, b);
    assert(rows / 4 * blocks * 4 <= rows * blocks) by (nonlinear_arith)
        requires
            rows / 4 * 4 <= rows,
            0 <= blocks,
    ;
    assert(0 <= g && g < rows / 4 * blocks);
    let row = 4 * q + r;
    let at = block_at(blocks, row, b);
    assert((4 * g + r) / 4 == g && (4 * g + r) % 4 == r);
    assert(m.exps@[4 * g + r] == quad_exp(raw, rows, blocks, 4 * g + r));
    assert(quad_row(blocks, g, r) == row);
    let f = mx_term(m.nib@, 64 * g + 16 * r, x, 32 * b);
    let h = mx_term(raw, at + 1, x, 32 * b);
    assert forall|i: int| 0 <= i < 32 implies #[trigger] f(i) == h(i) by {
        let k = if i < 16 {
            i
        } else {
            i - 16
        };
        let p = 64 * g + 16 * r + k;
        assert(p / 64 == g && (p / 16) % 4 == r && p % 16 == k);
        assert(m.nib@[p] == quad_nib(raw, rows, blocks, p));
    }
    assert forall|l: int| 0 <= l < 4 implies #[trigger] mx_lane(
        m.nib@,
        64 * g + 16 * r,
        x,
        32 * b,
        l,
    ) == mx_lane(raw, at + 1, x, 32 * b, l) by {
        reveal(quarter);
        assert(f(4 * l) == h(4 * l) && f(4 * l + 1) == h(4 * l + 1));
        assert(f(4 * l + 2) == h(4 * l + 2) && f(4 * l + 3) == h(4 * l + 3));
        let k = l + 4;
        assert(f(4 * k) == h(4 * k) && f(4 * k + 1) == h(4 * k + 1));
        assert(f(4 * k + 2) == h(4 * k + 2) && f(4 * k + 3) == h(4 * k + 3));
    }
}

proof fn lemma_repacked_lane<S: Scalar>(
    m: QuadMx,
    raw: Seq<u8>,
    rows: int,
    blocks: int,
    q: int,
    r: int,
    x: Seq<i8>,
    xs: Seq<S>,
    pow: Seq<S>,
    l: int,
    n: int,
)
    requires
        m.of(raw, rows, blocks),
        0 <= q < rows / 4,
        0 <= r < 4,
        0 <= l < 4,
        n <= blocks,
    ensures
        quad_lane(m.nib@, m.exps@, blocks, q, r, x, xs, pow, l, n) == mx_row_lane(
            raw,
            blocks,
            4 * q + r,
            x,
            xs,
            pow,
            l,
            n,
        ),
    decreases n,
{
    if n > 0 {
        lemma_repacked_lane(m, raw, rows, blocks, q, r, x, xs, pow, l, n - 1);
        lemma_repacked_block(m, raw, x, rows, blocks, q, n - 1, r);
        let g = q * blocks + n - 1;
        assert(mx_lane(m.nib@, 64 * (q * blocks + (n - 1)) + 16 * r, x, 32 * (n - 1), l) == mx_lane(
            raw,
            block_at(blocks, 4 * q + r, n - 1) + 1,
            x,
            32 * (n - 1),
            l,
        ));
        assert(q * blocks + (n - 1) == g);
    }
}

/// Repacking changes the order of bytes and nothing else: the quad kernel's
/// values are those of the four rows in the native layout.
pub proof fn repacked_quad_has_row_values<S: Scalar>(
    m: QuadMx,
    raw: Seq<u8>,
    rows: int,
    blocks: int,
    q: int,
    r: int,
    x: Seq<i8>,
    xs: Seq<S>,
    pow: Seq<S>,
    n: int,
)
    requires
        m.of(raw, rows, blocks),
        0 <= q < rows / 4,
        0 <= r < 4,
        n <= blocks,
    ensures
        quad_value(m.nib@, m.exps@, blocks, q, r, x, xs, pow, n) == mx_row_value(
            raw,
            blocks,
            4 * q + r,
            x,
            xs,
            pow,
            n,
        ),
{
    lemma_repacked_lane(m, raw, rows, blocks, q, r, x, xs, pow, 0, n);
    lemma_repacked_lane(m, raw, rows, blocks, q, r, x, xs, pow, 1, n);
    lemma_repacked_lane(m, raw, rows, blocks, q, r, x, xs, pow, 2, n);
    lemma_repacked_lane(m, raw, rows, blocks, q, r, x, xs, pow, 3, n);
}

} // verus!
