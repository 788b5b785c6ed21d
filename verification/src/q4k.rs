//! Q4_K super-blocks: 256 weights in 144 bytes.
//!
//! A super-block holds two halves `d` and `dmin`, twelve bytes that pack eight
//! 6-bit scales and eight 6-bit minima, and 128 bytes of 4-bit codes. Weight `l`
//! is `d * scale * code - dmin * min`, with the scale and the minimum of its
//! sub-block of 32. Dot products with 8-bit activations are exact integers; only
//! `d`, `dmin` and the activations' scales are fractional, and they multiply
//! whole blocks.
use crate::arith::{
    lemma_product_bounds, lemma_sum_bounds, lemma_sum_groups, lemma_sum_linear, lemma_sum_split,
    sum, wrap_i32,
};
use crate::bits::{hi_nibble, lo_nibble};
use crate::half::{half_at, half_bits, read_half};
use crate::lanes::{lane, paired, quarter, scaled, Lanes};
use crate::scalar::Scalar;
use vstd::arithmetic::mul::{
    lemma_mul_is_associative, lemma_mul_is_distributive_sub,
    lemma_mul_is_distributive_sub_other_way, lemma_mul_unary_negation,
};
use vstd::prelude::*;
use vstd::slice::slice_subrange;

verus! {

// --------------------------------------------------------------------- scales

/// The 6-bit scale of sub-block `j`, out of the packed bytes `s`.
pub open spec fn k4_scale(s: Seq<u8>, j: int) -> int {
    if j < 4 {
        s[j] as int % 64
    } else {
        s[j + 4] as int % 16 + 16 * (s[j - 4] as int / 64)
    }
}

/// The 6-bit minimum of sub-block `j`, out of the packed bytes `s`.
pub open spec fn k4_min(s: Seq<u8>, j: int) -> int {
    if j < 4 {
        s[j + 4] as int % 64
    } else {
        s[j + 4] as int / 16 + 16 * (s[j] as int / 64)
    }
}

proof fn lemma_six_bits(a: u8, b: u8)
    by (bit_vector)
    ensures
        a & 63 == a % 64,
        (a & 0xF) | ((b >> 6) << 4) == a % 16 + 16 * (b / 64),
        (a >> 4) | ((b >> 6) << 4) == a / 16 + 16 * (b / 64),
{
}

/// Scale and minimum of sub-block `j`.
pub fn scale_min_k4(j: usize, q: &[u8]) -> (r: (u8, u8))
    requires
        j + 4 < q.len(),
    ensures
        r.0 == k4_scale(q@, j as int),
        r.1 == k4_min(q@, j as int),
        r.0 < 64,
        r.1 < 64,
{
    if j < 4 {
        proof {
            lemma_six_bits(q@[j as int], 0);
            lemma_six_bits(q@[j + 4], 0);
        }
        (q[j] & 63, q[j + 4] & 63)
    } else {
        proof {
            lemma_six_bits(q@[j + 4], q@[j - 4]);
            lemma_six_bits(q@[j + 4], q@[j as int]);
        }
        ((q[j + 4] & 0xF) | ((q[j - 4] >> 6) << 4), (q[j + 4] >> 4) | ((q[j] >> 6) << 4))
    }
}

/// Scale and minimum of sub-block `j`; the same as `scale_min_k4`.
pub fn get_scale_min_k4(j: usize, q: &[u8]) -> (r: (u8, u8))
    requires
        j + 4 < q.len(),
    ensures
        r.0 == k4_scale(q@, j as int),
        r.1 == k4_min(q@, j as int),
        r.0 < 64,
        r.1 < 64,
{
    scale_min_k4(j, q)
}

/// Four bytes, least significant first, as one word.
spec fn word(a: u32, b: u32, c: u32, d: u32) -> u32 {
    a | (b << 8) | (c << 16) | (d << 24)
}

proof fn lemma_word_masks(a0: u32, a1: u32, a2: u32, a3: u32, b0: u32, b1: u32, b2: u32, b3: u32)
    by (bit_vector)
    requires
        a0 < 256,
        a1 < 256,
        a2 < 256,
        a3 < 256,
        b0 < 256,
        b1 < 256,
        b2 < 256,
        b3 < 256,
    ensures
        ({
            let u = word(a0, a1, a2, a3) & 0x3f3f3f3f;
            &&& u & 0xff == a0 % 64
            &&& (u >> 8) & 0xff == a1 % 64
            &&& (u >> 16) & 0xff == a2 % 64
            &&& (u >> 24) & 0xff == a3 % 64
        }),
        ({
            let u = (word(b0, b1, b2, b3) & 0x0f0f0f0f) | (((word(a0, a1, a2, a3) >> 6)
                & 0x03030303) << 4);
            &&& u & 0xff == b0 % 16 + 16 * (a0 / 64)
            &&& (u >> 8) & 0xff == b1 % 16 + 16 * (a1 / 64)
            &&& (u >> 16) & 0xff == b2 % 16 + 16 * (a2 / 64)
            &&& (u >> 24) & 0xff == b3 % 16 + 16 * (a3 / 64)
        }),
        ({
            let u = ((word(b0, b1, b2, b3) >> 4) & 0x0f0f0f0f) | (((word(a0, a1, a2, a3) >> 6)
                & 0x03030303) << 4);
            &&& u & 0xff == b0 / 16 + 16 * (a0 / 64)
            &&& (u >> 8) & 0xff == b1 / 16 + 16 * (a1 / 64)
            &&& (u >> 16) & 0xff == b2 / 16 + 16 * (a2 / 64)
            &&& (u >> 24) & 0xff == b3 / 16 + 16 * (a3 / 64)
        }),
{
}

/// The four bytes at `i` as one word, least significant first.
fn word_at(s: &[u8], i: usize) -> (w: u32)
    requires
        i + 3 < s.len(),
    ensures
        w == word(s@[i as int] as u32, s@[i + 1] as u32, s@[i + 2] as u32, s@[i + 3] as u32),
{
    let (a, b, c, d): (u32, u32, u32, u32) = (
        s[i] as u32,
        s[i + 1] as u32,
        s[i + 2] as u32,
        s[i + 3] as u32,
    );
    a | (b << 8) | (c << 16) | (d << 24)
}

/// The four bytes of a word, least significant first.
fn bytes_of(w: u32) -> (r: (u8, u8, u8, u8))
    ensures
        r.0 == w & 0xff,
        r.1 == (w >> 8) & 0xff,
        r.2 == (w >> 16) & 0xff,
        r.3 == (w >> 24) & 0xff,
{
    assert(w & 0xff < 256 && (w >> 8) & 0xff < 256 && (w >> 16) & 0xff < 256 && (w >> 24) & 0xff
        < 256) by (bit_vector);
    (
        (w & 0xff) as u8,
        ((w >> 8) & 0xff) as u8,
        ((w >> 16) & 0xff) as u8,
        ((w >> 24) & 0xff) as u8,
    )
}

/// The low six bits of the four bytes at `i`.
fn six_bits(s: &[u8], i: usize) -> (r: (u8, u8, u8, u8))
    requires
        i + 3 < s.len(),
    ensures
        r.0 == s@[i as int] as int % 64,
        r.1 == s@[i + 1] as int % 64,
        r.2 == s@[i + 2] as int % 64,
        r.3 == s@[i + 3] as int % 64,
{
    let w: u32 = word_at(s, i);
    proof {
        let (a, b, c, d) = (s@[i as int], s@[i + 1], s@[i + 2], s@[i + 3]);
        lemma_word_masks(a as u32, b as u32, c as u32, d as u32, 0, 0, 0, 0);
    }
    bytes_of(w & 0x3f3f3f3f)
}

/// The low four bits of the four bytes at 8, below the high two bits of those at
/// `i`.
fn low_joined(s: &[u8], i: usize) -> (r: (u8, u8, u8, u8))
    requires
        i + 3 < s.len(),
        12 <= s.len(),
    ensures
        r.0 == s@[8] as int % 16 + 16 * (s@[i as int] as int / 64),
        r.1 == s@[9] as int % 16 + 16 * (s@[i + 1] as int / 64),
        r.2 == s@[10] as int % 16 + 16 * (s@[i + 2] as int / 64),
        r.3 == s@[11] as int % 16 + 16 * (s@[i + 3] as int / 64),
{
    let (w, u): (u32, u32) = (word_at(s, i), word_at(s, 8));
    proof {
        let (a, b, c, d) = (s@[i as int], s@[i + 1], s@[i + 2], s@[i + 3]);
        let (e, f, g, h) = (s@[8], s@[9], s@[10], s@[11]);
        lemma_word_masks(
            a as u32,
            b as u32,
            c as u32,
            d as u32,
            e as u32,
            f as u32,
            g as u32,
            h as u32,
        );
    }
    bytes_of((u & 0x0f0f0f0f) | (((w >> 6) & 0x03030303) << 4))
}

/// The high four bits of the four bytes at 8, below the high two bits of those at
/// `i`.
fn high_joined(s: &[u8], i: usize) -> (r: (u8, u8, u8, u8))
    requires
        i + 3 < s.len(),
        12 <= s.len(),
    ensures
        r.0 == s@[8] as int / 16 + 16 * (s@[i as int] as int / 64),
        r.1 == s@[9] as int / 16 + 16 * (s@[i + 1] as int / 64),
        r.2 == s@[10] as int / 16 + 16 * (s@[i + 2] as int / 64),
        r.3 == s@[11] as int / 16 + 16 * (s@[i + 3] as int / 64),
{
    let (w, u): (u32, u32) = (word_at(s, i), word_at(s, 8));
    proof {
        let (a, b, c, d) = (s@[i as int], s@[i + 1], s@[i + 2], s@[i + 3]);
        let (e, f, g, h) = (s@[8], s@[9], s@[10], s@[11]);
        lemma_word_masks(
            a as u32,
            b as u32,
            c as u32,
            d as u32,
            e as u32,
            f as u32,
            g as u32,
            h as u32,
        );
    }
    bytes_of(((u >> 4) & 0x0f0f0f0f) | (((w >> 6) & 0x03030303) << 4))
}

/// Eight bytes in order.
fn eight(a: (u8, u8, u8, u8), b: (u8, u8, u8, u8)) -> (r: Vec<u8>)
    ensures
        r@ == seq![a.0, a.1, a.2, a.3, b.0, b.1, b.2, b.3],
{
    let mut out: Vec<u8> = Vec::new();
    out.push(a.0);
    out.push(a.1);
    out.push(a.2);
    out.push(a.3);
    out.push(b.0);
    out.push(b.1);
    out.push(b.2);
    out.push(b.3);
    out
}

/// All eight scales and all eight minima at once, by masking whole words.
pub fn unpack_k4(scales: &[u8]) -> (r: (Vec<u8>, Vec<u8>))
    requires
        scales.len() >= 12,
    ensures
        r.0.len() == 8,
        r.1.len() == 8,
        forall|j: int| 0 <= j < 8 ==> #[trigger] r.0@[j] == k4_scale(scales@, j),
        forall|j: int| 0 <= j < 8 ==> #[trigger] r.1@[j] == k4_min(scales@, j),
        forall|j: int| 0 <= j < 8 ==> #[trigger] r.0@[j] < 64,
        forall|j: int| 0 <= j < 8 ==> #[trigger] r.1@[j] < 64,
{
    let sc: Vec<u8> = eight(six_bits(scales, 0), low_joined(scales, 0));
    let mn: Vec<u8> = eight(six_bits(scales, 4), high_joined(scales, 4));
    (sc, mn)
}

// ----------------------------------------------------------------------- dots

/// The 4-bit code of weight `l` of the super-block `b`.
pub open spec fn q4k_code(b: Seq<u8>, l: int) -> int {
    let byte = b[16 + 32 * (l / 64) + l % 32] as int;
    if (l / 32) % 2 == 0 {
        byte % 16
    } else {
        byte / 16
    }
}

/// The packed scales of a super-block.
pub open spec fn q4k_scales(b: Seq<u8>) -> Seq<u8> {
    b.subrange(4, 16)
}

/// Code times activation, for weight `i` of sub-block `j`.
pub open spec fn q4k_sub_term(b: Seq<u8>, x: Seq<i8>, j: int) -> spec_fn(int) -> int {
    |i: int| q4k_code(b, 32 * j + i) * x[32 * j + i]
}

/// The dot product of sub-block `j`'s codes with the activations.
pub open spec fn q4k_sub_dot(b: Seq<u8>, x: Seq<i8>, j: int) -> int {
    sum(32, q4k_sub_term(b, x, j))
}

/// Scale times code times activation, for weight `l`.
pub open spec fn q4k_term(b: Seq<u8>, x: Seq<i8>) -> spec_fn(int) -> int {
    |l: int| k4_scale(q4k_scales(b), l / 32) * q4k_code(b, l) * x[l]
}

/// The sum over all 256 weights of scale times code times activation.
pub open spec fn q4k_acc(b: Seq<u8>, x: Seq<i8>) -> int {
    sum(256, q4k_term(b, x))
}

/// Minimum times activation sum, for sub-block `j`.
pub open spec fn q4k_min_term(b: Seq<u8>, xsum: Seq<i32>) -> spec_fn(int) -> int {
    |j: int| k4_min(q4k_scales(b), j) * xsum[j]
}

/// The sum over the eight sub-blocks of minimum times activation sum.
pub open spec fn q4k_mint(b: Seq<u8>, xsum: Seq<i32>) -> int {
    sum(8, q4k_min_term(b, xsum))
}

/// The integer parts of one Q4_K super-block times 256 activations: the factors
/// `d` and `dmin` as the bits of singles, each sub-block's scale, minimum and
/// dot product.
pub struct Q4Parts {
    pub d: u32,
    pub dmin: u32,
    pub sc: Vec<u8>,
    pub mn: Vec<u8>,
    pub sums: Vec<i32>,
}

impl Q4Parts {
    /// These are the parts of super-block `b` times the activations `x`.
    pub open spec fn of(&self, b: Seq<u8>, x: Seq<i8>) -> bool {
        &&& self.d == half_bits(half_at(b, 0))
        &&& self.dmin == half_bits(half_at(b, 2))
        &&& self.sc@.len() == 8
        &&& self.mn@.len() == 8
        &&& self.sums@.len() == 8
        &&& forall|j: int|
            0 <= j < 8 ==> #[trigger] self.sc@[j] == k4_scale(q4k_scales(b), j)
        &&& forall|j: int| 0 <= j < 8 ==> #[trigger] self.mn@[j] == k4_min(q4k_scales(b), j)
        &&& forall|j: int| 0 <= j < 8 ==> #[trigger] self.sums@[j] == q4k_sub_dot(b, x, j)
    }

    /// Scales and minima have six bits, and a dot product of 32 codes is small.
    pub open spec fn small(&self) -> bool {
        &&& forall|j: int| 0 <= j < 8 ==> #[trigger] self.sc@[j] < 64
        &&& forall|j: int| 0 <= j < 8 ==> #[trigger] self.mn@[j] < 64
        &&& forall|j: int| 0 <= j < 8 ==> -61440 <= #[trigger] self.sums@[j] <= 61440
    }
}

/// One Q4_K super-block times 256 activations with one scale for all of them:
/// the row's value grows by `ys * d * acc - ys * dmin * mint`.
pub struct Q4Term {
    pub d: u32,
    pub dmin: u32,
    pub acc: i32,
    pub mint: i64,
}

impl Q4Term {
    /// This is the term of super-block `b` times the activations `x`, whose sums
    /// by 32 are `xsum`.
    pub open spec fn of(&self, b: Seq<u8>, x: Seq<i8>, xsum: Seq<i32>) -> bool {
        &&& self.d == half_bits(half_at(b, 0))
        &&& self.dmin == half_bits(half_at(b, 2))
        &&& self.acc == q4k_acc(b, x)
        &&& self.mint == q4k_mint(b, xsum)
    }
}

/// The dot product of one sub-block.
fn q4k_sub(b: &[u8], x: &[i8], j: usize) -> (r: i32)
    requires
        b.len() == 144,
        x.len() == 256,
        j < 8,
    ensures
        r == q4k_sub_dot(b@, x@, j as int),
        -61440 <= r <= 61440,
{
    let mut acc: i32 = 0;
    for i in 0..32usize
        invariant
            b.len() == 144,
            x.len() == 256,
            j < 8,
            acc == sum(i as int, q4k_sub_term(b@, x@, j as int)),
            -1920 * i <= acc <= 1920 * i,
    {
        let byte: u8 = b[16 + 32 * (j / 2) + i];
        let code: u8 = if j % 2 == 0 {
            lo_nibble(byte)
        } else {
            hi_nibble(byte)
        };
        let xv: i8 = x[32 * j + i];
        proof {
            let l = 32 * j + i;
            assert(l / 64 == j / 2 && l % 32 == i && l / 32 == j);
            assert(code == q4k_code(b@, l));
            lemma_product_bounds(code as int, xv as int, 15, 128);
        }
        acc = acc + (code as i32) * (xv as i32);
    }
    acc
}

/// The parts of one super-block.
pub fn q4k_parts(b: &[u8], x: &[i8]) -> (r: Q4Parts)
    requires
        b.len() == 144,
        x.len() == 256,
    ensures
        r.of(b@, x@),
        r.small(),
{
    let scales = slice_subrange(b, 4, 16);
    let (mut sc, mut mn, mut sums): (Vec<u8>, Vec<u8>, Vec<i32>) = (
        Vec::new(),
        Vec::new(),
        Vec::new(),
    );
    for j in 0..8usize
        invariant
            b.len() == 144,
            x.len() == 256,
            scales@ == q4k_scales(b@),
            sc@.len() == j && mn@.len() == j && sums@.len() == j,
            forall|k: int| 0 <= k < j ==> #[trigger] sc@[k] == k4_scale(scales@, k) && sc@[k] < 64,
            forall|k: int| 0 <= k < j ==> #[trigger] mn@[k] == k4_min(scales@, k) && mn@[k] < 64,
            forall|k: int|
                0 <= k < j ==> #[trigger] sums@[k] == q4k_sub_dot(b@, x@, k) && -61440 <= sums@[k]
                    <= 61440,
    {
        let (s, m) = scale_min_k4(j, scales);
        sc.push(s);
        mn.push(m);
        sums.push(q4k_sub(b, x, j));
    }
    Q4Parts { d: read_half(b, 0), dmin: read_half(b, 2), sc, mn, sums }
}

/// Weighting the sub-blocks' dot products by their scales gives the sum over
/// all weights of scale times code times activation.
proof fn lemma_q4k_acc(b: Seq<u8>, x: Seq<i8>)
    ensures
        q4k_acc(b, x) == sum(8, q4k_group(b, x)),
{
    let f = q4k_term(b, x);
    let group = q4k_group(b, x);
    let s = q4k_scales(b);
    let term = |j: int| (|i: int| k4_scale(s, j) * q4k_sub_term(b, x, j)(i));
    assert forall|j: int| 0 <= j < 8 implies #[trigger] group(j) == sum(32, term(j)) by {
        let zero = |i: int| 0int;
        let g = q4k_sub_term(b, x, j);
        let t = term(j);
        assert forall|i: int| 0 <= i < 32 implies #[trigger] t(i) == k4_scale(s, j) * g(i) + 0
            * zero(i) by {}
        lemma_sum_linear(32, k4_scale(s, j), g, 0, zero, t);
        assert(0 * sum(32, zero) == 0) by (nonlinear_arith);
    }
    assert forall|j: int, i: int| 0 <= j < 8 && 0 <= i < 32 implies #[trigger] term(j)(i) == f(
        j * 32 + i,
    ) by {
        let l = j * 32 + i;
        assert(l / 32 == j);
        let (a, c, v) = (k4_scale(s, j), q4k_code(b, l), x[l] as int);
        assert(a * (c * v) == a * c * v) by (nonlinear_arith);
    }
    lemma_sum_groups(8, 32, f, group, term);
}

/// Scale times dot product, for sub-block `j`.
spec fn q4k_group(b: Seq<u8>, x: Seq<i8>) -> spec_fn(int) -> int {
    |j: int| k4_scale(q4k_scales(b), j) * q4k_sub_dot(b, x, j)
}

/// Gathers the parts of a super-block under one activation scale.
fn q4k_gather(p: &Q4Parts, xsum: &[i32], Ghost(b): Ghost<Seq<u8>>, Ghost(x): Ghost<Seq<i8>>) -> (r:
    Q4Term)
    requires
        p.of(b, x),
        xsum.len() == 8,
        p.small(),
    ensures
        r.of(b, x, xsum@),
{
    let (mut acc, mut mint): (i32, i64) = (0, 0);
    for j in 0..8usize
        invariant
            p.of(b, x),
            xsum.len() == 8,
            p.small(),
            acc == sum(j as int, q4k_group(b, x)),
            mint == sum(j as int, q4k_min_term(b, xsum@)),
            -3870720 * j <= acc <= 3870720 * j,
            -0x20_0000_0000 * j <= mint <= 0x20_0000_0000 * j,
    {
        let (s, m, v, t): (u8, u8, i32, i32) = (p.sc[j], p.mn[j], p.sums[j], xsum[j]);
        proof {
            lemma_product_bounds(s as int, v as int, 63, 61440);
            lemma_product_bounds(m as int, t as int, 64, 0x8000_0000);
        }
        acc = acc + (s as i32) * v;
        mint = mint + (m as i64) * (t as i64);
    }
    proof {
        lemma_q4k_acc(b, x);
    }
    Q4Term { d: p.d, dmin: p.dmin, acc, mint }
}

/// Super-block `s` of a row of Q4_K super-blocks.
pub open spec fn q4k_block(row: Seq<u8>, s: int) -> Seq<u8> {
    row.subrange(144 * s, 144 * s + 144)
}

/// The activations that meet super-block `s`.
pub open spec fn x_block(x: Seq<i8>, s: int) -> Seq<i8> {
    x.subrange(256 * s, 256 * s + 256)
}

/// The activation sums that meet super-block `s`.
pub open spec fn xsum_block(xsum: Seq<i32>, s: int) -> Seq<i32> {
    xsum.subrange(8 * s, 8 * s + 8)
}

/// The factor `d` of a super-block.
pub open spec fn q4k_d<S: Scalar>(b: Seq<u8>) -> S {
    S::of_bits_spec(half_bits(half_at(b, 0)))
}

/// The factor `dmin` of a super-block.
pub open spec fn q4k_dmin<S: Scalar>(b: Seq<u8>) -> S {
    S::of_bits_spec(half_bits(half_at(b, 2)))
}

/// Lane `l` after the first `n` sub-blocks of a row: each adds its lane in one
/// step, times the scale of the activations, `d` and its own scale.
#[verifier::opaque]
pub open spec fn q4k_lane<S: Scalar>(row: Seq<u8>, x: Seq<i8>, xs: Seq<S>, l: int, n: int) -> S
    decreases n,
{
    if n <= 0 {
        S::zero_spec()
    } else {
        let (s, j) = ((n - 1) / 8, (n - 1) % 8);
        let b = q4k_block(row, s);
        scaled(
            q4k_lane(row, x, xs, l, n - 1),
            lane(q4k_sub_term(b, x_block(x, s), j), l),
            q4k_factor(b, j, xs[n - 1]),
        )
    }
}

/// The scaled dot products of the first `n` sub-blocks of a row, added up: the
/// lanes added in pairs.
pub open spec fn q4k_total<S: Scalar>(row: Seq<u8>, x: Seq<i8>, xs: Seq<S>, n: int) -> S {
    paired(
        q4k_lane(row, x, xs, 0, n),
        q4k_lane(row, x, xs, 1, n),
        q4k_lane(row, x, xs, 2, n),
        q4k_lane(row, x, xs, 3, n),
    )
}

/// What the minima of the first `n` sub-blocks of a row take off: each is the
/// scale of the activations times `dmin`, the minimum and the activations' sum.
#[verifier::opaque]
pub open spec fn q4k_low<S: Scalar>(row: Seq<u8>, xs: Seq<S>, xsum: Seq<i32>, n: int) -> S
    decreases n,
{
    if n <= 0 {
        S::zero_spec()
    } else {
        let (s, j) = ((n - 1) / 8, (n - 1) % 8);
        let b = q4k_block(row, s);
        q4k_low(row, xs, xsum, n - 1).plus_spec(q4k_taken(b, j, xs[n - 1], xsum[n - 1]))
    }
}

/// The value of a Q4_K row of `cols` columns times activations that carry one
/// scale per 32 and come with their sums by 32.
pub open spec fn q4k_value<S: Scalar>(
    row: Seq<u8>,
    x: Seq<i8>,
    xs: Seq<S>,
    xsum: Seq<i32>,
    cols: int,
) -> S {
    q4k_total(row, x, xs, cols / 256 * 8).minus_spec(q4k_low(row, xs, xsum, cols / 256 * 8))
}

/// All sums start from zero.
proof fn lemma_q4k_start<S: Scalar>(row: Seq<u8>, x: Seq<i8>, xs: Seq<S>, xsum: Seq<i32>)
    ensures
        forall|l: int| #[trigger] q4k_lane(row, x, xs, l, 0) == S::zero_spec(),
        q4k_low(row, xs, xsum, 0) == S::zero_spec(),
{
    reveal_with_fuel(q4k_lane, 1);
    reveal_with_fuel(q4k_low, 1);
}

/// Sub-block `j` of super-block `sb` adds one step to a lane.
proof fn lemma_q4k_lane<S: Scalar>(row: Seq<u8>, x: Seq<i8>, xs: Seq<S>, sb: int, j: int, l: int)
    requires
        0 <= sb,
        0 <= j < 8,
    ensures
        ({
            let b = q4k_block(row, sb);
            q4k_lane(row, x, xs, l, 8 * sb + j + 1) == scaled(
                q4k_lane(row, x, xs, l, 8 * sb + j),
                lane(q4k_sub_term(b, x_block(x, sb), j), l),
                q4k_factor(b, j, xs[8 * sb + j]),
            )
        }),
{
    reveal_with_fuel(q4k_lane, 1);
    let n = 8 * sb + j + 1;
    assert((n - 1) / 8 == sb && (n - 1) % 8 == j);
}

/// Sub-block `j` of super-block `sb` takes off one step.
proof fn lemma_q4k_low<S: Scalar>(row: Seq<u8>, xs: Seq<S>, xsum: Seq<i32>, sb: int, j: int)
    requires
        0 <= sb,
        0 <= j < 8,
    ensures
        ({
            let b = q4k_block(row, sb);
            q4k_low(row, xs, xsum, 8 * sb + j + 1) == q4k_low(
                row,
                xs,
                xsum,
                8 * sb + j,
            ).plus_spec(q4k_taken(b, j, xs[8 * sb + j], xsum[8 * sb + j]))
        }),
{
    reveal_with_fuel(q4k_low, 1);
    let n = 8 * sb + j + 1;
    assert((n - 1) / 8 == sb && (n - 1) % 8 == j);
}

/// Code times activation, for weight `i` of sub-block `j`.
fn q4k_product(b: &[u8], x: &[i8], j: usize, i: usize) -> (r: i32)
    requires
        b.len() == 144,
        x.len() == 256,
        j < 8,
        i < 32,
    ensures
        r == q4k_sub_term(b@, x@, j as int)(i as int),
        -1920 <= r <= 1920,
{
    let code: i8 = q4k_code_at(b, 32 * j + i);
    let xv: i8 = x[32 * j + i];
    proof {
        lemma_product_bounds(code as int, xv as int, 15, 128);
    }
    (code as i32) * (xv as i32)
}

/// Quarter `i` of sub-block `j`.
fn q4k_quarter(b: &[u8], x: &[i8], j: usize, i: usize) -> (r: i32)
    requires
        b.len() == 144,
        x.len() == 256,
        j < 8,
        i < 8,
    ensures
        r == quarter(q4k_sub_term(b@, x@, j as int), i as int),
        -7680 <= r <= 7680,
{
    proof {
        reveal(quarter);
    }
    q4k_product(b, x, j, 4 * i) + q4k_product(b, x, j, 4 * i + 1) + q4k_product(b, x, j, 4 * i + 2)
        + q4k_product(b, x, j, 4 * i + 3)
}

/// The four lanes of sub-block `j`.
fn q4k_lanes(b: &[u8], x: &[i8], j: usize) -> (r: (i32, i32, i32, i32))
    requires
        b.len() == 144,
        x.len() == 256,
        j < 8,
    ensures
        ({
            let f = q4k_sub_term(b@, x@, j as int);
            r.0 == lane(f, 0) && r.1 == lane(f, 1) && r.2 == lane(f, 2) && r.3 == lane(f, 3)
        }),
{
    (
        q4k_quarter(b, x, j, 0) + q4k_quarter(b, x, j, 4),
        q4k_quarter(b, x, j, 1) + q4k_quarter(b, x, j, 5),
        q4k_quarter(b, x, j, 2) + q4k_quarter(b, x, j, 6),
        q4k_quarter(b, x, j, 3) + q4k_quarter(b, x, j, 7),
    )
}

/// The factor of sub-block `j`: the scale of its activations, `d` and its own
/// scale.
pub open spec fn q4k_factor<S: Scalar>(b: Seq<u8>, j: int, xs: S) -> S {
    xs.times_spec(q4k_d(b)).times_spec(S::of_int_spec(k4_scale(q4k_scales(b), j) as i64))
}

/// What the minimum of sub-block `j` takes off.
pub open spec fn q4k_taken<S: Scalar>(b: Seq<u8>, j: int, xs: S, xsum: i32) -> S {
    xs.times_spec(q4k_dmin(b)).times_spec(
        S::of_int_spec(k4_min(q4k_scales(b), j) as i64),
    ).times_spec(S::of_int_spec(xsum as i64))
}

/// Both of a sub-block.
fn q4k_factors<S: Scalar>(b: &[u8], j: usize, xs: S, xsum: i32) -> (r: (S, S))
    requires
        b.len() == 144,
        j < 8,
    ensures
        r.0 == q4k_factor(b@, j as int, xs),
        r.1 == q4k_taken(b@, j as int, xs, xsum),
{
    let scales = slice_subrange(b, 4, 16);
    let (d, dmin): (S, S) = (S::of_bits(read_half(b, 0)), S::of_bits(read_half(b, 2)));
    let (sc, mn) = scale_min_k4(j, scales);
    (
        xs.times(d).times(S::of_int(sc as i64)),
        xs.times(dmin).times(S::of_int(mn as i64)).times(S::of_int(xsum as i64)),
    )
}

/// The running sums of a row: the four lanes, and what the minima take off.
struct Q4Sums<S> {
    lanes: Lanes<S>,
    low: S,
}

impl<S: Scalar> Q4Sums<S> {
    /// The sums after the first `n` sub-blocks.
    spec fn after(
        &self,
        row: Seq<u8>,
        x: Seq<i8>,
        xs: Seq<S>,
        xsum: Seq<i32>,
        n: int,
    ) -> bool {
        &&& self.lanes.a == q4k_lane(row, x, xs, 0, n)
        &&& self.lanes.b == q4k_lane(row, x, xs, 1, n)
        &&& self.lanes.c == q4k_lane(row, x, xs, 2, n)
        &&& self.lanes.d == q4k_lane(row, x, xs, 3, n)
        &&& self.low == q4k_low(row, xs, xsum, n)
    }

    /// All sums zero.
    fn zero() -> (r: Q4Sums<S>)
        ensures
            r.lanes.a == S::zero_spec(),
            r.lanes.b == S::zero_spec(),
            r.lanes.c == S::zero_spec(),
            r.lanes.d == S::zero_spec(),
            r.low == S::zero_spec(),
    {
        Q4Sums { lanes: Lanes::zero(), low: S::zero() }
    }

    /// The value of the row.
    fn value(&self) -> (r: S)
        ensures
            r == paired(self.lanes.a, self.lanes.b, self.lanes.c, self.lanes.d).minus_spec(self.low),
    {
        self.lanes.total().minus(self.low)
    }

    /// Adds super-block `sb` of the row.
    fn add(
        &self,
        row: &[u8],
        sb: usize,
        xq: &[i8],
        xs: &[S],
        xsum: &[i32],
    ) -> (r: Q4Sums<S>)
        requires
            sb * 144 + 144 <= row.len(),
            sb * 256 + 256 <= xq.len(),
            8 * sb + 8 <= xs.len(),
            8 * sb + 8 <= xsum.len(),
            self.after(row@, xq@, xs@, xsum@, 8 * sb),
        ensures
            r.after(row@, xq@, xs@, xsum@, 8 * sb + 8),
    {
        let b = slice_subrange(row, sb * 144, sb * 144 + 144);
        let x = slice_subrange(xq, sb * 256, sb * 256 + 256);
        let mut lanes: Lanes<S> = Lanes {
            a: self.lanes.a,
            b: self.lanes.b,
            c: self.lanes.c,
            d: self.lanes.d,
        };
        let mut low: S = self.low;
        for j in 0..8usize
            invariant
                b@ == q4k_block(row@, sb as int),
                x@ == x_block(xq@, sb as int),
                b.len() == 144,
                x.len() == 256,
                8 * sb + 8 <= xs.len(),
                8 * sb + 8 <= xsum.len(),
                lanes.a == q4k_lane(row@, xq@, xs@, 0, 8 * sb + j),
                lanes.b == q4k_lane(row@, xq@, xs@, 1, 8 * sb + j),
                lanes.c == q4k_lane(row@, xq@, xs@, 2, 8 * sb + j),
                lanes.d == q4k_lane(row@, xq@, xs@, 3, 8 * sb + j),
                low == q4k_low(row@, xs@, xsum@, 8 * sb + j),
        {
            let k: usize = 8 * sb + j;
            proof {
                lemma_q4k_lane(row@, xq@, xs@, sb as int, j as int, 0);
                lemma_q4k_lane(row@, xq@, xs@, sb as int, j as int, 1);
                lemma_q4k_lane(row@, xq@, xs@, sb as int, j as int, 2);
                lemma_q4k_lane(row@, xq@, xs@, sb as int, j as int, 3);
                lemma_q4k_low(row@, xs@, xsum@, sb as int, j as int);
            }
            let (factor, taken) = q4k_factors(b, j, xs[k], xsum[k]);
            lanes = lanes.grow(q4k_lanes(b, x, j), factor);
            low = low.plus(taken);
        }
        Q4Sums { lanes, low }
    }
}

/// A Q4_K row times activations that carry one scale per 32 and come with their
/// sums by 32. Columns beyond the last whole super-block are left out.
pub fn q4k_dot<S: Scalar>(row: &[u8], xq: &[i8], xs: &[S], xsum: &[i32], cols: usize) -> (r: S)
    requires
        row.len() >= cols / 256 * 144,
        xq.len() >= cols / 256 * 256,
        xs.len() >= cols / 256 * 8,
        xsum.len() >= cols / 256 * 8,
    ensures
        r == q4k_value(row@, xq@, xs@, xsum@, cols as int),
{
    let mut sums: Q4Sums<S> = Q4Sums::zero();
    proof {
        lemma_q4k_start(row@, xq@, xs@, xsum@);
    }
    for sb in 0..cols / 256
        invariant
            row.len() >= cols / 256 * 144,
            xq.len() >= cols / 256 * 256,
            xs.len() >= cols / 256 * 8,
            xsum.len() >= cols / 256 * 8,
            sums.after(row@, xq@, xs@, xsum@, 8 * sb),
    {
        sums = sums.add(row, sb, xq, xs, xsum);
    }
    sums.value()
}

// ------------------------------------------------------ even and odd sub-blocks

/// The factor of sub-block `j` where `d` meets the sub-block's scale first.
pub open spec fn q4k_hoisted_factor<S: Scalar>(b: Seq<u8>, j: int, xs: S) -> S {
    xs.times_spec(q4k_d::<S>(b).times_spec(S::of_int_spec(k4_scale(q4k_scales(b), j) as i64)))
}

/// What the minimum of sub-block `j` takes off where `dmin` meets it first.
pub open spec fn q4k_hoisted_taken<S: Scalar>(b: Seq<u8>, j: int, xs: S, xsum: i32) -> S {
    xs.times_spec(
        q4k_dmin::<S>(b).times_spec(S::of_int_spec(k4_min(q4k_scales(b), j) as i64)),
    ).times_spec(S::of_int_spec(xsum as i64))
}

/// The factor of sub-block `j`, with the products hoisted or in turn.
pub open spec fn q4k_factor_by<S: Scalar>(hoisted: bool, b: Seq<u8>, j: int, xs: S) -> S {
    if hoisted {
        q4k_hoisted_factor(b, j, xs)
    } else {
        q4k_factor(b, j, xs)
    }
}

/// What the minimum of sub-block `j` takes off, with the products hoisted or in turn.
pub open spec fn q4k_taken_by<S: Scalar>(
    hoisted: bool,
    b: Seq<u8>,
    j: int,
    xs: S,
    xsum: i32,
) -> S {
    if hoisted {
        q4k_hoisted_taken(b, j, xs, xsum)
    } else {
        q4k_taken(b, j, xs, xsum)
    }
}

/// Lane `l` of the even sub-blocks, or of the odd ones, among the first `2 * n` of a
/// row.
#[verifier::opaque]
pub open spec fn q4k_chain<S: Scalar>(
    row: Seq<u8>,
    x: Seq<i8>,
    xs: Seq<S>,
    hoisted: bool,
    l: int,
    odd: int,
    n: int,
) -> S
    decreases n,
{
    if n <= 0 {
        S::zero_spec()
    } else {
        let (s, j) = ((n - 1) / 4, 2 * ((n - 1) % 4) + odd);
        let b = q4k_block(row, s);
        scaled(
            q4k_chain(row, x, xs, hoisted, l, odd, n - 1),
            lane(q4k_sub_term(b, x_block(x, s), j), l),
            q4k_factor_by(hoisted, b, j, xs[2 * (n - 1) + odd]),
        )
    }
}

/// What the minima of the first `n` pairs of sub-blocks of a row take off: the two
/// of a pair are added first.
#[verifier::opaque]
pub open spec fn q4k_low_pairs<S: Scalar>(
    row: Seq<u8>,
    xs: Seq<S>,
    xsum: Seq<i32>,
    hoisted: bool,
    n: int,
) -> S
    decreases n,
{
    if n <= 0 {
        S::zero_spec()
    } else {
        let (s, j, k) = ((n - 1) / 4, 2 * ((n - 1) % 4), 2 * (n - 1));
        let b = q4k_block(row, s);
        q4k_low_pairs(row, xs, xsum, hoisted, n - 1).plus_spec(
            q4k_taken_by(hoisted, b, j, xs[k], xsum[k]).plus_spec(
                q4k_taken_by(hoisted, b, j + 1, xs[k + 1], xsum[k + 1]),
            ),
        )
    }
}

/// Lane `l` of both chains together.
pub open spec fn q4k_joined<S: Scalar>(
    row: Seq<u8>,
    x: Seq<i8>,
    xs: Seq<S>,
    hoisted: bool,
    l: int,
    n: int,
) -> S {
    q4k_chain(row, x, xs, hoisted, l, 0, n).plus_spec(q4k_chain(row, x, xs, hoisted, l, 1, n))
}

/// The value that the pass over two rows at once gives of a row of `cols` columns:
/// even and odd sub-blocks in a chain each, and the minima added in pairs.
pub open spec fn q4k_gu_value<S: Scalar>(
    row: Seq<u8>,
    x: Seq<i8>,
    xs: Seq<S>,
    xsum: Seq<i32>,
    cols: int,
) -> S {
    let n = cols / 256 * 4;
    paired(
        q4k_joined(row, x, xs, false, 0, n),
        q4k_joined(row, x, xs, false, 1, n),
        q4k_joined(row, x, xs, false, 2, n),
        q4k_joined(row, x, xs, false, 3, n),
    ).minus_spec(q4k_low_pairs(row, xs, xsum, false, n))
}

/// Lane `l` of both chains together, and of two more that stay zero.
pub open spec fn q4k_joined_four<S: Scalar>(
    row: Seq<u8>,
    x: Seq<i8>,
    xs: Seq<S>,
    l: int,
    n: int,
) -> S {
    q4k_joined(row, x, xs, true, l, n).plus_spec(S::zero_spec().plus_spec(S::zero_spec()))
}

/// The value of a row of `cols` columns with even and odd sub-blocks in a chain each,
/// the minima added in pairs, and the factors of a super-block formed first.
pub open spec fn q4k_split_value<S: Scalar>(
    row: Seq<u8>,
    x: Seq<i8>,
    xs: Seq<S>,
    xsum: Seq<i32>,
    cols: int,
) -> S {
    let n = cols / 256 * 4;
    paired(
        q4k_joined_four(row, x, xs, 0, n),
        q4k_joined_four(row, x, xs, 1, n),
        q4k_joined_four(row, x, xs, 2, n),
        q4k_joined_four(row, x, xs, 3, n),
    ).minus_spec(q4k_low_pairs(row, xs, xsum, true, n))
}

/// All sums start from zero.
proof fn lemma_split_start<S: Scalar>(
    row: Seq<u8>,
    x: Seq<i8>,
    xs: Seq<S>,
    xsum: Seq<i32>,
    hoisted: bool,
)
    ensures
        forall|l: int, odd: int|
            #[trigger] q4k_chain(row, x, xs, hoisted, l, odd, 0) == S::zero_spec(),
        q4k_low_pairs(row, xs, xsum, hoisted, 0) == S::zero_spec(),
{
    reveal_with_fuel(q4k_chain, 1);
    reveal_with_fuel(q4k_low_pairs, 1);
}

/// Pair `jj` of super-block `sb` adds one step to a chain.
proof fn lemma_q4k_chain<S: Scalar>(
    row: Seq<u8>,
    x: Seq<i8>,
    xs: Seq<S>,
    hoisted: bool,
    sb: int,
    jj: int,
    l: int,
    odd: int,
)
    requires
        0 <= sb,
        0 <= jj < 4,
        0 <= odd < 2,
    ensures
        ({
            let (b, j) = (q4k_block(row, sb), 2 * jj + odd);
            q4k_chain(row, x, xs, hoisted, l, odd, 4 * sb + jj + 1) == scaled(
                q4k_chain(row, x, xs, hoisted, l, odd, 4 * sb + jj),
                lane(q4k_sub_term(b, x_block(x, sb), j), l),
                q4k_factor_by(hoisted, b, j, xs[8 * sb + j]),
            )
        }),
{
    reveal_with_fuel(q4k_chain, 1);
    let n = 4 * sb + jj + 1;
    assert((n - 1) / 4 == sb && (n - 1) % 4 == jj && 2 * (n - 1) + odd == 8 * sb + 2 * jj + odd);
}

/// Pair `jj` of super-block `sb` takes off one step.
proof fn lemma_q4k_low_pairs<S: Scalar>(
    row: Seq<u8>,
    xs: Seq<S>,
    xsum: Seq<i32>,
    hoisted: bool,
    sb: int,
    jj: int,
)
    requires
        0 <= sb,
        0 <= jj < 4,
    ensures
        ({
            let (b, j, k) = (q4k_block(row, sb), 2 * jj, 8 * sb + 2 * jj);
            q4k_low_pairs(row, xs, xsum, hoisted, 4 * sb + jj + 1) == q4k_low_pairs(
                row,
                xs,
                xsum,
                hoisted,
                4 * sb + jj,
            ).plus_spec(
                q4k_taken_by(hoisted, b, j, xs[k], xsum[k]).plus_spec(
                    q4k_taken_by(hoisted, b, j + 1, xs[k + 1], xsum[k + 1]),
                ),
            )
        }),
{
    reveal_with_fuel(q4k_low_pairs, 1);
    let n = 4 * sb + jj + 1;
    assert((n - 1) / 4 == sb && (n - 1) % 4 == jj && 2 * (n - 1) == 8 * sb + 2 * jj);
}

/// The factor of a sub-block and what its minimum takes off.
fn q4k_factors_by<S: Scalar>(hoisted: bool, b: &[u8], j: usize, xs: S, xsum: i32) -> (r: (S, S))
    requires
        b.len() == 144,
        j < 8,
    ensures
        r.0 == q4k_factor_by(hoisted, b@, j as int, xs),
        r.1 == q4k_taken_by(hoisted, b@, j as int, xs, xsum),
{
    if !hoisted {
        return q4k_factors(b, j, xs, xsum);
    }
    let scales = slice_subrange(b, 4, 16);
    let (d, dmin): (S, S) = (S::of_bits(read_half(b, 0)), S::of_bits(read_half(b, 2)));
    let (sc, mn) = scale_min_k4(j, scales);
    (
        xs.times(d.times(S::of_int(sc as i64))),
        xs.times(dmin.times(S::of_int(mn as i64))).times(S::of_int(xsum as i64)),
    )
}

/// The running sums of a row in two chains: the lanes of the even and of the odd
/// sub-blocks, and what the minima take off.
struct Q4Split<S> {
    even: Lanes<S>,
    odd: Lanes<S>,
    low: S,
}

/// The lanes are those of a chain after `n` steps.
spec fn is_chain<S: Scalar>(
    sums: Lanes<S>,
    row: Seq<u8>,
    x: Seq<i8>,
    xs: Seq<S>,
    hoisted: bool,
    odd: int,
    n: int,
) -> bool {
    &&& sums.a == q4k_chain(row, x, xs, hoisted, 0, odd, n)
    &&& sums.b == q4k_chain(row, x, xs, hoisted, 1, odd, n)
    &&& sums.c == q4k_chain(row, x, xs, hoisted, 2, odd, n)
    &&& sums.d == q4k_chain(row, x, xs, hoisted, 3, odd, n)
}

/// A chain grows by a sub-block.
fn grow_chain<S: Scalar>(
    sums: &Lanes<S>,
    row: &[u8],
    sb: usize,
    xq: &[i8],
    factor: S,
    jj: usize,
    odd: usize,
    Ghost(xs): Ghost<Seq<S>>,
    Ghost(hoisted): Ghost<bool>,
) -> (r: Lanes<S>)
    requires
        sb * 144 + 144 <= row.len(),
        sb * 256 + 256 <= xq.len(),
        jj < 4,
        odd < 2,
        is_chain(*sums, row@, xq@, xs, hoisted, odd as int, 4 * sb + jj),
        ({
            let j = 2 * jj + odd;
            factor == q4k_factor_by(hoisted, q4k_block(row@, sb as int), j, xs[8 * sb + j])
        }),
    ensures
        is_chain(r, row@, xq@, xs, hoisted, odd as int, 4 * sb + jj + 1),
{
    let b = slice_subrange(row, sb * 144, sb * 144 + 144);
    let x = slice_subrange(xq, sb * 256, sb * 256 + 256);
    proof {
        lemma_q4k_chain(row@, xq@, xs, hoisted, sb as int, jj as int, 0, odd as int);
        lemma_q4k_chain(row@, xq@, xs, hoisted, sb as int, jj as int, 1, odd as int);
        lemma_q4k_chain(row@, xq@, xs, hoisted, sb as int, jj as int, 2, odd as int);
        lemma_q4k_chain(row@, xq@, xs, hoisted, sb as int, jj as int, 3, odd as int);
    }
    sums.grow(q4k_lanes(b, x, 2 * jj + odd), factor)
}

impl<S: Scalar> Q4Split<S> {
    /// The sums after the first `n` pairs of sub-blocks.
    spec fn after(
        &self,
        row: Seq<u8>,
        x: Seq<i8>,
        xs: Seq<S>,
        xsum: Seq<i32>,
        hoisted: bool,
        n: int,
    ) -> bool {
        &&& is_chain(self.even, row, x, xs, hoisted, 0, n)
        &&& is_chain(self.odd, row, x, xs, hoisted, 1, n)
        &&& self.low == q4k_low_pairs(row, xs, xsum, hoisted, n)
    }

    /// All sums zero.
    fn zero() -> (r: Q4Split<S>)
        ensures
            r.even.a == S::zero_spec() && r.odd.a == S::zero_spec(),
            r.even.b == S::zero_spec() && r.odd.b == S::zero_spec(),
            r.even.c == S::zero_spec() && r.odd.c == S::zero_spec(),
            r.even.d == S::zero_spec() && r.odd.d == S::zero_spec(),
            r.low == S::zero_spec(),
    {
        Q4Split { even: Lanes::zero(), odd: Lanes::zero(), low: S::zero() }
    }

    /// Adds pair `jj` of super-block `sb` of the row.
    fn add_pair(
        &self,
        row: &[u8],
        sb: usize,
        jj: usize,
        xq: &[i8],
        xs: &[S],
        xsum: &[i32],
        hoisted: bool,
    ) -> (r: Q4Split<S>)
        requires
            sb * 144 + 144 <= row.len(),
            sb * 256 + 256 <= xq.len(),
            8 * sb + 8 <= xs.len(),
            8 * sb + 8 <= xsum.len(),
            jj < 4,
            self.after(row@, xq@, xs@, xsum@, hoisted, 4 * sb + jj),
        ensures
            r.after(row@, xq@, xs@, xsum@, hoisted, 4 * sb + jj + 1),
    {
        let b = slice_subrange(row, sb * 144, sb * 144 + 144);
        let k: usize = 8 * sb + 2 * jj;
        let (f0, t0) = q4k_factors_by(hoisted, b, 2 * jj, xs[k], xsum[k]);
        let (f1, t1) = q4k_factors_by(hoisted, b, 2 * jj + 1, xs[k + 1], xsum[k + 1]);
        proof {
            lemma_q4k_low_pairs(row@, xs@, xsum@, hoisted, sb as int, jj as int);
        }
        let (gx, gh) = (Ghost(xs@), Ghost(hoisted));
        Q4Split {
            even: grow_chain(&self.even, row, sb, xq, f0, jj, 0, gx, gh),
            odd: grow_chain(&self.odd, row, sb, xq, f1, jj, 1, gx, gh),
            low: self.low.plus(t0.plus(t1)),
        }
    }

    /// Adds super-block `sb` of the row.
    fn add(
        &self,
        row: &[u8],
        sb: usize,
        xq: &[i8],
        xs: &[S],
        xsum: &[i32],
        hoisted: bool,
    ) -> (r: Q4Split<S>)
        requires
            sb * 144 + 144 <= row.len(),
            sb * 256 + 256 <= xq.len(),
            8 * sb + 8 <= xs.len(),
            8 * sb + 8 <= xsum.len(),
            self.after(row@, xq@, xs@, xsum@, hoisted, 4 * sb),
        ensures
            r.after(row@, xq@, xs@, xsum@, hoisted, 4 * sb + 4),
    {
        self.add_pair(row, sb, 0, xq, xs, xsum, hoisted).add_pair(
            row,
            sb,
            1,
            xq,
            xs,
            xsum,
            hoisted,
        ).add_pair(row, sb, 2, xq, xs, xsum, hoisted).add_pair(row, sb, 3, xq, xs, xsum, hoisted)
    }
}

/// Gate and up rows times the same activations, in one pass, each with its even and
/// odd sub-blocks in a chain of their own. Columns beyond the last whole super-block
/// are left out.
pub fn q4k_gu<S: Scalar>(
    g: &[u8],
    u: &[u8],
    xq: &[i8],
    xs: &[S],
    xsum: &[i32],
    cols: usize,
) -> (r: (S, S))
    requires
        g.len() >= cols / 256 * 144,
        u.len() >= cols / 256 * 144,
        xq.len() >= cols / 256 * 256,
        xs.len() >= cols / 256 * 8,
        xsum.len() >= cols / 256 * 8,
    ensures
        r.0 == q4k_gu_value(g@, xq@, xs@, xsum@, cols as int),
        r.1 == q4k_gu_value(u@, xq@, xs@, xsum@, cols as int),
{
    let (mut gs, mut us): (Q4Split<S>, Q4Split<S>) = (Q4Split::zero(), Q4Split::zero());
    proof {
        lemma_split_start(g@, xq@, xs@, xsum@, false);
        lemma_split_start(u@, xq@, xs@, xsum@, false);
    }
    for sb in 0..cols / 256
        invariant
            g.len() >= cols / 256 * 144,
            u.len() >= cols / 256 * 144,
            xq.len() >= cols / 256 * 256,
            xs.len() >= cols / 256 * 8,
            xsum.len() >= cols / 256 * 8,
            gs.after(g@, xq@, xs@, xsum@, false, 4 * sb),
            us.after(u@, xq@, xs@, xsum@, false, 4 * sb),
    {
        gs = gs.add(g, sb, xq, xs, xsum, false);
        us = us.add(u, sb, xq, xs, xsum, false);
    }
    (gs.even.with(&gs.odd).total().minus(gs.low), us.even.with(&us.odd).total().minus(us.low))
}

/// A Q4_K row times activations that carry one scale per 32 and come with their
/// sums by 32, with its even and odd sub-blocks in a chain of their own. Columns
/// beyond the last whole super-block are left out.
pub fn q4k_dot_split<S: Scalar>(row: &[u8], xq: &[i8], xs: &[S], xsum: &[i32], cols: usize) -> (r:
    S)
    requires
        row.len() >= cols / 256 * 144,
        xq.len() >= cols / 256 * 256,
        xs.len() >= cols / 256 * 8,
        xsum.len() >= cols / 256 * 8,
    ensures
        r == q4k_split_value(row@, xq@, xs@, xsum@, cols as int),
{
    let mut sums: Q4Split<S> = Q4Split::zero();
    proof {
        lemma_split_start(row@, xq@, xs@, xsum@, true);
    }
    for sb in 0..cols / 256
        invariant
            row.len() >= cols / 256 * 144,
            xq.len() >= cols / 256 * 256,
            xs.len() >= cols / 256 * 8,
            xsum.len() >= cols / 256 * 8,
            sums.after(row@, xq@, xs@, xsum@, true, 4 * sb),
    {
        sums = sums.add(row, sb, xq, xs, xsum, true);
    }
    let zero: Lanes<S> = Lanes::zero();
    sums.even.with(&sums.odd).with(&zero.with(&zero)).total().minus(sums.low)
}

/// The first `n` super-blocks of a row times activations that carry one scale per
/// 256: each adds `y * d * acc - y * dmin * mint`, with the integer sums `acc` of
/// scales, codes and activations and `mint` of minima and activations' sums.
pub open spec fn q4k_int_value<S: Scalar>(
    row: Seq<u8>,
    x: Seq<i8>,
    ys: Seq<S>,
    xsum: Seq<i32>,
    n: int,
) -> S
    decreases n,
{
    if n <= 0 {
        S::zero_spec()
    } else {
        let b = q4k_block(row, n - 1);
        let acc = S::of_int_spec(q4k_acc(b, x_block(x, n - 1)) as i64);
        let mint = S::of_int_spec(q4k_mint(b, xsum_block(xsum, n - 1)) as i64);
        q4k_int_value(row, x, ys, xsum, n - 1).plus_spec(
            ys[n - 1].times_spec(q4k_d(b)).times_spec(acc).minus_spec(
                ys[n - 1].times_spec(q4k_dmin(b)).times_spec(mint),
            ),
        )
    }
}

/// What a super-block with the term `t` adds, under the activation scale `y`.
fn q4k_grown<S: Scalar>(acc: S, t: &Q4Term, y: S) -> (r: S)
    ensures
        r == acc.plus_spec(
            y.times_spec(S::of_bits_spec(t.d)).times_spec(S::of_int_spec(t.acc as i64)).minus_spec(
                y.times_spec(S::of_bits_spec(t.dmin)).times_spec(S::of_int_spec(t.mint)),
            ),
        ),
{
    let gain: S = y.times(S::of_bits(t.d)).times(S::of_int(t.acc as i64));
    let loss: S = y.times(S::of_bits(t.dmin)).times(S::of_int(t.mint));
    acc.plus(gain.minus(loss))
}

/// A Q4_K row times activations that carry one scale per 256, accumulated in
/// integers within a super-block. `xsum32` holds the activations' sums by 32.
/// Columns beyond the last whole super-block are left out.
pub fn q4k_dot_int<S: Scalar>(row: &[u8], xq: &[i8], ys: &[S], xsum32: &[i32], cols: usize) -> (r: S)
    requires
        row.len() >= cols / 256 * 144,
        xq.len() >= cols / 256 * 256,
        ys.len() >= cols / 256,
        xsum32.len() >= cols / 256 * 8,
    ensures
        r == q4k_int_value(row@, xq@, ys@, xsum32@, cols as int / 256),
{
    let mut out: S = S::zero();
    for sb in 0..cols / 256
        invariant
            row.len() >= cols / 256 * 144,
            xq.len() >= cols / 256 * 256,
            ys.len() >= cols / 256,
            xsum32.len() >= cols / 256 * 8,
            out == q4k_int_value(row@, xq@, ys@, xsum32@, sb as int),
    {
        let b = slice_subrange(row, sb * 144, sb * 144 + 144);
        let x = slice_subrange(xq, sb * 256, sb * 256 + 256);
        let xs = slice_subrange(xsum32, sb * 8, sb * 8 + 8);
        let p = q4k_parts(b, x);
        let t = q4k_gather(&p, xs, Ghost(b@), Ghost(x@));
        out = q4k_grown(out, &t, ys[sb]);
    }
    out
}

// ------------------------------------------------------ two rows at a time

/// Lane product `i` of the 8-byte groups of `a` at `ao` and of `b` at `bo`.
pub open spec fn oct_term(a: Seq<i8>, ao: int, b: Seq<i8>, bo: int) -> spec_fn(int) -> int {
    |i: int| a[ao + i] * b[bo + i]
}

/// The dot product of two groups of eight.
fn oct_dot(a: &[i8], ao: usize, b: &[i8], bo: usize) -> (r: i32)
    requires
        ao + 8 <= a.len(),
        bo + 8 <= b.len(),
    ensures
        r == sum(8, oct_term(a@, ao as int, b@, bo as int)),
        -131072 <= r <= 131072,
{
    let mut acc: i32 = 0;
    for i in 0..8usize
        invariant
            ao + 8 <= a.len(),
            bo + 8 <= b.len(),
            acc == sum(i as int, oct_term(a@, ao as int, b@, bo as int)),
            -16384 * i <= acc <= 16384 * i,
    {
        proof {
            lemma_product_bounds(a@[ao + i] as int, b@[bo + i] as int, 128, 128);
        }
        acc = acc + (a[ao + i] as i32) * (b[bo + i] as i32);
    }
    acc
}

/// A 2x2 matrix of 32-bit lanes, by rows, grows by the 2x8 matrix `a` times the
/// transpose of the 2x8 matrix `b`; lanes wrap.
pub fn smmla(acc: (i32, i32, i32, i32), a: &[i8], b: &[i8]) -> (r: (i32, i32, i32, i32))
    requires
        a.len() == 16,
        b.len() == 16,
    ensures
        r.0 == wrap_i32(acc.0 + sum(8, oct_term(a@, 0, b@, 0))),
        r.1 == wrap_i32(acc.1 + sum(8, oct_term(a@, 0, b@, 8))),
        r.2 == wrap_i32(acc.2 + sum(8, oct_term(a@, 8, b@, 0))),
        r.3 == wrap_i32(acc.3 + sum(8, oct_term(a@, 8, b@, 8))),
{
    (
        acc.0.wrapping_add(oct_dot(a, 0, b, 0)),
        acc.1.wrapping_add(oct_dot(a, 0, b, 8)),
        acc.2.wrapping_add(oct_dot(a, 8, b, 0)),
        acc.3.wrapping_add(oct_dot(a, 8, b, 8)),
    )
}

/// The code of weight `l`.
fn q4k_code_at(b: &[u8], l: usize) -> (r: i8)
    requires
        b.len() == 144,
        l < 256,
    ensures
        r == q4k_code(b@, l as int),
        0 <= r < 16,
{
    let byte: u8 = b[16 + 32 * (l / 64) + l % 32];
    if (l / 32) % 2 == 0 {
        lo_nibble(byte) as i8
    } else {
        hi_nibble(byte) as i8
    }
}

/// Sub-block `j` of two super-blocks times the same activations. Each step
/// multiplies eight codes of either row with the same eight activations, which
/// stand twice in the second operand; the first lane of each matrix row counts.
fn q4k_sub2(b0: &[u8], b1: &[u8], x: &[i8], j: usize) -> (r: (i32, i32))
    requires
        b0.len() == 144,
        b1.len() == 144,
        x.len() == 256,
        j < 8,
    ensures
        r.0 == q4k_sub_dot(b0@, x@, j as int),
        r.1 == q4k_sub_dot(b1@, x@, j as int),
        -61440 <= r.0 <= 61440,
        -61440 <= r.1 <= 61440,
{
    let mut m: (i32, i32, i32, i32) = (0, 0, 0, 0);
    let ghost (t0, t1) = (q4k_sub_term(b0@, x@, j as int), q4k_sub_term(b1@, x@, j as int));
    for c in 0..4usize
        invariant
            b0.len() == 144,
            b1.len() == 144,
            x.len() == 256,
            j < 8,
            t0 == q4k_sub_term(b0@, x@, j as int),
            t1 == q4k_sub_term(b1@, x@, j as int),
            m.0 == sum(8 * c, t0),
            m.2 == sum(8 * c, t1),
            -15360 * c <= m.0 <= 15360 * c,
            -15360 * c <= m.2 <= 15360 * c,
    {
        let base: usize = 32 * j + 8 * c;
        let (mut a, mut bx): (Vec<i8>, Vec<i8>) = (Vec::new(), Vec::new());
        for i in 0..16usize
            invariant
                b0.len() == 144,
                b1.len() == 144,
                x.len() == 256,
                j < 8,
                c < 4,
                base == 32 * j + 8 * c,
                a@.len() == i && bx@.len() == i,
                forall|k: int|
                    0 <= k < i ==> #[trigger] a@[k] == if k < 8 {
                        q4k_code(b0@, base + k)
                    } else {
                        q4k_code(b1@, base + k - 8)
                    } && 0 <= a@[k] < 16,
                forall|k: int|
                    0 <= k < i ==> #[trigger] bx@[k] == x@[base + if k < 8 {
                        k
                    } else {
                        k - 8
                    }],
        {
            let k: usize = if i < 8 {
                base + i
            } else {
                base + i - 8
            };
            a.push(
                if i < 8 {
                    q4k_code_at(b0, k)
                } else {
                    q4k_code_at(b1, k)
                },
            );
            bx.push(x[k]);
        }
        proof {
            let f0 = oct_term(a@, 0, bx@, 0);
            let f1 = oct_term(a@, 8, bx@, 0);
            assert forall|i: int| 0 <= i < 8 implies #[trigger] f0(i) == t0(8 * c + i) && -1920
                <= f0(i) <= 1920 by {
                lemma_product_bounds(a@[i] as int, bx@[i] as int, 15, 128);
            }
            assert forall|i: int| 0 <= i < 8 implies #[trigger] f1(i) == t1(8 * c + i) && -1920
                <= f1(i) <= 1920 by {
                assert(a@[8 + i] == q4k_code(b1@, base + i));
                lemma_product_bounds(a@[8 + i] as int, bx@[i] as int, 15, 128);
            }
            lemma_sum_split(8 * c, 8, t0, f0);
            lemma_sum_split(8 * c, 8, t1, f1);
            lemma_sum_bounds(8, f0, -1920, 1920);
            lemma_sum_bounds(8, f1, -1920, 1920);
        }
        m = smmla(m, &a, &bx);
    }
    (m.0, m.2)
}

/// The parts of two super-blocks times the same activations.
fn q4k_parts2(b0: &[u8], b1: &[u8], x: &[i8]) -> (r: (Q4Parts, Q4Parts))
    requires
        b0.len() == 144,
        b1.len() == 144,
        x.len() == 256,
    ensures
        r.0.of(b0@, x@),
        r.1.of(b1@, x@),
        r.0.small(),
        r.1.small(),
{
    let (sc0, mn0) = unpack_k4(slice_subrange(b0, 4, 16));
    let (sc1, mn1) = unpack_k4(slice_subrange(b1, 4, 16));
    let (mut s0, mut s1): (Vec<i32>, Vec<i32>) = (Vec::new(), Vec::new());
    for j in 0..8usize
        invariant
            b0.len() == 144,
            b1.len() == 144,
            x.len() == 256,
            s0@.len() == j && s1@.len() == j,
            forall|k: int|
                0 <= k < j ==> #[trigger] s0@[k] == q4k_sub_dot(b0@, x@, k) && -61440 <= s0@[k]
                    <= 61440,
            forall|k: int|
                0 <= k < j ==> #[trigger] s1@[k] == q4k_sub_dot(b1@, x@, k) && -61440 <= s1@[k]
                    <= 61440,
    {
        let (u, v) = q4k_sub2(b0, b1, x, j);
        s0.push(u);
        s1.push(v);
    }
    let p0 = Q4Parts { d: read_half(b0, 0), dmin: read_half(b0, 2), sc: sc0, mn: mn0, sums: s0 };
    let p1 = Q4Parts { d: read_half(b1, 0), dmin: read_half(b1, 2), sc: sc1, mn: mn1, sums: s1 };
    (p0, p1)
}

/// Two Q4_K rows times the same activations, through 2x2 integer matrix steps:
/// the value of either row is the one that `q4k_dot_int` gives of it.
pub fn q4k_dot2_smmla<S: Scalar>(
    r0: &[u8],
    r1: &[u8],
    xq: &[i8],
    ys: &[S],
    xsum32: &[i32],
    cols: usize,
) -> (r: (S, S))
    requires
        r0.len() >= cols / 256 * 144,
        r1.len() >= cols / 256 * 144,
        xq.len() >= cols / 256 * 256,
        ys.len() >= cols / 256,
        xsum32.len() >= cols / 256 * 8,
    ensures
        r.0 == q4k_int_value(r0@, xq@, ys@, xsum32@, cols as int / 256),
        r.1 == q4k_int_value(r1@, xq@, ys@, xsum32@, cols as int / 256),
{
    let (mut out0, mut out1): (S, S) = (S::zero(), S::zero());
    for sb in 0..cols / 256
        invariant
            r0.len() >= cols / 256 * 144,
            r1.len() >= cols / 256 * 144,
            xq.len() >= cols / 256 * 256,
            ys.len() >= cols / 256,
            xsum32.len() >= cols / 256 * 8,
            out0 == q4k_int_value(r0@, xq@, ys@, xsum32@, sb as int),
            out1 == q4k_int_value(r1@, xq@, ys@, xsum32@, sb as int),
    {
        let b0 = slice_subrange(r0, sb * 144, sb * 144 + 144);
        let b1 = slice_subrange(r1, sb * 144, sb * 144 + 144);
        let x = slice_subrange(xq, sb * 256, sb * 256 + 256);
        let xs = slice_subrange(xsum32, sb * 8, sb * 8 + 8);
        let (p0, p1) = q4k_parts2(b0, b1, x);
        let t0 = q4k_gather(&p0, xs, Ghost(b0@), Ghost(x@));
        let t1 = q4k_gather(&p1, xs, Ghost(b1@), Ghost(x@));
        out0 = q4k_grown(out0, &t0, ys[sb]);
        out1 = q4k_grown(out1, &t1, ys[sb]);
    }
    (out0, out1)
}

// ---------------------------------------------------------------- dequantized

/// The factors of a weight: scale, code and minimum.
pub struct Q4Weight {
    pub sc: u8,
    pub code: u8,
    pub mn: u8,
}

/// The factors of weight `l` of the super-block `b`.
pub open spec fn q4k_weight(b: Seq<u8>, l: int) -> Q4Weight {
    Q4Weight {
        sc: k4_scale(q4k_scales(b), l / 32) as u8,
        code: q4k_code(b, l) as u8,
        mn: k4_min(q4k_scales(b), l / 32) as u8,
    }
}

/// Weight `l` of a super-block: `d * scale * code - dmin * min`.
pub open spec fn q4k_plain<S: Scalar>(b: Seq<u8>, l: int) -> S {
    let w = q4k_weight(b, l);
    q4k_d::<S>(b).times_spec(S::of_int_spec(w.sc as i64)).times_spec(
        S::of_int_spec(w.code as i64),
    ).minus_spec(q4k_dmin::<S>(b).times_spec(S::of_int_spec(w.mn as i64)))
}

/// All 256 weights of a super-block.
pub fn dequant_q4k<S: Scalar>(b: &[u8]) -> (r: Vec<S>)
    requires
        b.len() >= 144,
    ensures
        r@ == Seq::new(256, |l: int| q4k_plain::<S>(b@, l)),
{
    let scales = slice_subrange(b, 4, 16);
    let (d, dmin): (S, S) = (S::of_bits(read_half(b, 0)), S::of_bits(read_half(b, 2)));
    let mut out: Vec<S> = Vec::new();
    for l in 0..256usize
        invariant
            b.len() >= 144,
            scales@ == q4k_scales(b@),
            d == q4k_d::<S>(b@),
            dmin == q4k_dmin::<S>(b@),
            out@ == Seq::new(l as nat, |k: int| q4k_plain::<S>(b@, k)),
    {
        let (sc, mn) = scale_min_k4(l / 32, scales);
        let byte: u8 = b[16 + 32 * (l / 64) + l % 32];
        let code: u8 = if (l / 32) % 2 == 0 {
            lo_nibble(byte)
        } else {
            hi_nibble(byte)
        };
        let ghost w = q4k_weight(b@, l as int);
        assert(w.sc == sc && w.mn == mn && w.code == code);
        let gain: S = d.times(S::of_int(sc as i64)).times(S::of_int(code as i64));
        out.push(gain.minus(dmin.times(S::of_int(mn as i64))));
    }
    out
}

/// Activation `i` of sub-block `j`.
pub open spec fn x_term(x: Seq<i8>, j: int) -> spec_fn(int) -> int {
    |i: int| x[32 * j + i] as int
}

/// `xsum` holds the sums of the activations by 32.
pub open spec fn sums_by_32(xsum: Seq<i32>, x: Seq<i8>) -> bool {
    forall|j: int| 0 <= j < 8 ==> #[trigger] xsum[j] == sum(32, x_term(x, j))
}

/// Weight `l` dequantized with integer factors, times its activation.
pub open spec fn q4k_exact_term(b: Seq<u8>, x: Seq<i8>, d: int, dmin: int) -> spec_fn(int) -> int {
    |l: int|
        {
            let w = q4k_weight(b, l);
            (d * w.sc * w.code - dmin * w.mn) * x[l]
        }
}

proof fn lemma_weight_times(d: int, a: int, c: int, e: int, m: int, v: int)
    ensures
        (d * a * c - e * m) * v == d * (a * c * v) + (-e) * (m * v),
{
    lemma_mul_is_distributive_sub_other_way(v, d * a * c, e * m);
    lemma_mul_is_associative(d, a, c);
    lemma_mul_is_associative(d, a * c, v);
    lemma_mul_is_associative(e, m, v);
    lemma_mul_unary_negation(e, m * v);
}

proof fn lemma_times_part(y: int, d: int, a: int, s: int, e: int, m: int, w: int)
    ensures
        y * (d * a * s - e * m * w) == y * d * a * s + (-(y * e * m)) * w,
{
    lemma_mul_is_distributive_sub(y, d * a * s, e * m * w);
    lemma_mul_is_associative(y, d * a, s);
    lemma_mul_is_associative(y, d, a);
    lemma_mul_is_associative(y, e * m, w);
    lemma_mul_is_associative(y, e, m);
    lemma_mul_unary_negation(y * e * m, w);
}

/// The integer accumulation is exact: whatever the factors `d` and `dmin`, the
/// gathered term of a super-block is the dot product of its dequantized weights
/// with the activations.
pub proof fn q4k_term_is_dequantized_dot(
    b: Seq<u8>,
    x: Seq<i8>,
    xsum: Seq<i32>,
    d: int,
    dmin: int,
)
    requires
        b.len() == 144,
        x.len() == 256,
        xsum.len() == 8,
        sums_by_32(xsum, x),
    ensures
        d * q4k_acc(b, x) - dmin * q4k_mint(b, xsum) == sum(256, q4k_exact_term(b, x, d, dmin)),
{
    let s = q4k_scales(b);
    let f = q4k_term(b, x);
    let g = |l: int| k4_min(s, l / 32) * x[l];
    let h = q4k_exact_term(b, x, d, dmin);
    assert forall|l: int| 0 <= l < 256 implies #[trigger] h(l) == d * f(l) + (-dmin) * g(l) by {
        let (a, c, m, v) = (k4_scale(s, l / 32), q4k_code(b, l), k4_min(s, l / 32), x[l] as int);
        lemma_weight_times(d, a, c, dmin, m, v);
    }
    lemma_sum_linear(256, d, f, -dmin, g, h);
    let group = q4k_min_term(b, xsum);
    let term = |j: int| (|i: int| k4_min(s, j) * x_term(x, j)(i));
    assert forall|j: int| 0 <= j < 8 implies #[trigger] group(j) == sum(32, term(j)) by {
        let zero = |i: int| 0int;
        let t = term(j);
        let e = x_term(x, j);
        assert forall|i: int| 0 <= i < 32 implies #[trigger] t(i) == k4_min(s, j) * e(i) + 0 * zero(
            i,
        ) by {}
        lemma_sum_linear(32, k4_min(s, j), e, 0, zero, t);
        assert(0 * sum(32, zero) == 0) by (nonlinear_arith);
        assert(xsum[j] == sum(32, x_term(x, j)));
    }
    assert forall|j: int, i: int| 0 <= j < 8 && 0 <= i < 32 implies #[trigger] term(j)(i) == g(
        j * 32 + i,
    ) by {
        assert((j * 32 + i) / 32 == j);
    }
    lemma_sum_groups(8, 32, g, group, term);
    let (p, q) = (sum(256, f), sum(256, g));
    assert(d * p + (-dmin) * q == d * p - dmin * q) by (nonlinear_arith);
}

/// With a scale per 32 activations the parts are exact as well: the sum over the
/// sub-blocks of `x`-scale times (`d * scale * dot - dmin * min * xsum`) is the
/// dot product of the dequantized weights with the scaled activations.
pub proof fn q4k_parts_are_dequantized_dot(
    b: Seq<u8>,
    x: Seq<i8>,
    xsum: Seq<i32>,
    d: int,
    dmin: int,
    xs: spec_fn(int) -> int,
)
    requires
        b.len() == 144,
        x.len() == 256,
        xsum.len() == 8,
        sums_by_32(xsum, x),
    ensures
        sum(8, q4k_scaled_part(b, x, xsum, d, dmin, xs)) == sum(
            256,
            q4k_scaled_term(b, x, d, dmin, xs),
        ),
{
    let s = q4k_scales(b);
    let group = q4k_scaled_part(b, x, xsum, d, dmin, xs);
    let f = q4k_scaled_term(b, x, d, dmin, xs);
    let term = |j: int|
        (|i: int|
            xs(j) * d * k4_scale(s, j) * q4k_sub_term(b, x, j)(i) + (-(xs(j) * dmin * k4_min(s, j)))
                * x_term(x, j)(i));
    assert forall|j: int| 0 <= j < 8 implies #[trigger] group(j) == sum(32, term(j)) by {
        let (p, q) = (xs(j) * d * k4_scale(s, j), -(xs(j) * dmin * k4_min(s, j)));
        let (t, u, v) = (term(j), q4k_sub_term(b, x, j), x_term(x, j));
        assert forall|i: int| 0 <= i < 32 implies #[trigger] t(i) == p * u(i) + q * v(i) by {}
        lemma_sum_linear(32, p, u, q, v, t);
        assert(xsum[j] == sum(32, v));
        let (y, a, m, e, w) = (xs(j), k4_scale(s, j), k4_min(s, j), sum(32, u), sum(32, v));
        lemma_times_part(y, d, a, e, dmin, m, w);
    }
    assert forall|j: int, i: int| 0 <= j < 8 && 0 <= i < 32 implies #[trigger] term(j)(i) == f(
        j * 32 + i,
    ) by {
        let l = j * 32 + i;
        assert(l / 32 == j);
        let (y, a, m, c, v) = (xs(j), k4_scale(s, j), k4_min(s, j), q4k_code(b, l), x[l] as int);
        lemma_times_part(y, d, a, c * v, dmin, m, v);
        lemma_weight_times(d, a, c, dmin, m, v);
        assert(d * (a * c * v) == d * a * (c * v)) by {
            lemma_mul_is_associative(a, c, v);
            lemma_mul_is_associative(d, a, c * v);
        }
        assert((-dmin) * (m * v) == -(dmin * m * v)) by {
            lemma_mul_unary_negation(dmin, m * v);
            lemma_mul_is_associative(dmin, m, v);
        }
    }
    lemma_sum_groups(8, 32, f, group, term);
}

/// What sub-block `j` adds to a row's value, with integer factors.
pub open spec fn q4k_scaled_part(
    b: Seq<u8>,
    x: Seq<i8>,
    xsum: Seq<i32>,
    d: int,
    dmin: int,
    xs: spec_fn(int) -> int,
) -> spec_fn(int) -> int {
    |j: int|
        xs(j) * (d * k4_scale(q4k_scales(b), j) * q4k_sub_dot(b, x, j) - dmin * k4_min(
            q4k_scales(b),
            j,
        ) * xsum[j])
}

/// Weight `l` dequantized with integer factors, times its scaled activation.
pub open spec fn q4k_scaled_term(
    b: Seq<u8>,
    x: Seq<i8>,
    d: int,
    dmin: int,
    xs: spec_fn(int) -> int,
) -> spec_fn(int) -> int {
    |l: int| xs(l / 32) * q4k_exact_term(b, x, d, dmin)(l)
}

} // verus!
