//! What the units of a forward pass of the model with normalized heads come to where
//! nothing rounds, from the weights in the weight file: which row each unit multiplies
//! with which activations.
use crate::activation::plain_gate;
use crate::analytic::Analytic;
use crate::arith::{lemma_sum_same, sum};
use crate::config::Cfg;
use crate::exact::{
    congruent, is_exact, lemma_congruent_plus, lemma_congruent_same, lemma_congruent_through,
    lemma_congruent_times, q4k_column, q4k_row_is_dequantized_dot, q6k_column,
    q6k_row_is_dequantized_dot, row_sums,
};
use crate::exact_gptoss::{lemma_in_runs, products_are_an_inner_product};
use crate::exact_rows::{
    q4k_blocks_are_dequantized_dot, q4k_column32, q4k_gu_is_dequantized_dot,
    q4k_split_is_dequantized_dot, q6k_blocks_are_dequantized_dot, q6k_column32,
    q6k_split_is_dequantized_dot,
};
use crate::kmat::{Grain, KMat, TYPE_Q4_K};
use crate::piece::Piece;
use crate::q4k::{q4k_block, q4k_gu_value, q4k_plain};
use crate::q6k::{q6k_block, q6k_plain};
use crate::q8::block_term;
use crate::qwen::Layer;
use crate::qwen_order::logits_of;
use crate::qwen_pass::{Model, Shared, Turn};
use crate::scalar::Scalar;
use crate::schedule::Phase;
use vstd::arithmetic::div_mod::lemma_fundamental_div_mod_converse;
use vstd::prelude::*;

verus! {

/// Column `j` of row `r` of a matrix in the weight file, dequantized.
pub open spec fn weight_at<S: Scalar>(w: KMat, blob: Seq<u8>, r: int, j: int) -> S {
    let row = w.off + r * w.bpr;
    if w.ttype == TYPE_Q4_K {
        let at = row + 144 * (j / 256);
        q4k_plain::<S>(blob.subrange(at, at + 144), j % 256)
    } else {
        let at = row + 210 * (j / 256);
        q6k_plain::<S>(blob.subrange(at, at + 210), j % 256)
    }
}

/// Row `r` of a matrix times the activations from place `at` on, of which every `width`
/// share a scale; the scales stand from place `sat` on.
pub open spec fn row_product<S: Scalar>(
    v: spec_fn(S) -> int,
    w: KMat,
    blob: Seq<u8>,
    r: int,
    x: Seq<i8>,
    at: int,
    xs: Seq<S>,
    sat: int,
    width: int,
) -> int {
    sum(
        w.cols as int,
        |j: int| v(weight_at::<S>(w, blob, r, j)) * v(xs[sat + j / width]) * x[at + j],
    )
}

/// From place `mat` on, `xsum` holds the sums by 32 of the levels from place `at` on.
pub open spec fn are_sums(xsum: Seq<i32>, mat: int, x: Seq<i8>, at: int, n: int) -> bool {
    forall|b: int|
        0 <= b < n ==> #[trigger] xsum[mat + b] == sum(32, |i: int| x[at + 32 * b + i] as int)
}

/// The activations of one row among longer ones lie where they should.
pub open spec fn is_served(
    w: KMat,
    blob: Seq<u8>,
    r: int,
    x: int,
    at: int,
    xs: int,
    sat: int,
    xsum: int,
    mat: int,
    grain: Grain,
) -> bool {
    &&& w.wf() && w.cols % 256 == 0 && 0 <= r && w.holds_row(blob, r)
    &&& 0 <= at && at + w.cols <= x
    &&& 0 <= sat && sat + w.cols as int / grain.width() <= xs
    &&& 0 <= mat && mat + w.cols as int / 32 <= xsum
}

/// A block of a row is a block of the weight file.
proof fn lemma_weight<S: Scalar>(w: KMat, blob: Seq<u8>, r: int, j: int)
    requires
        w.wf(),
        w.cols % 256 == 0,
        0 <= r,
        w.holds_row(blob, r),
        0 <= j < w.cols,
    ensures
        w.ttype == TYPE_Q4_K ==> weight_at::<S>(w, blob, r, j) == q4k_plain::<S>(
            q4k_block(w.row(blob, r), j / 256),
            j % 256,
        ),
        w.ttype != TYPE_Q4_K ==> weight_at::<S>(w, blob, r, j) == q6k_plain::<S>(
            q6k_block(w.row(blob, r), j / 256),
            j % 256,
        ),
{
    let row = w.row(blob, r);
    let (start, s) = (w.off + r * w.bpr, j / 256);
    assert(0 <= r * w.bpr) by (nonlinear_arith)
        requires
            0 <= r,
            0 <= w.bpr,
    ;
    assert(0 <= s < w.cols as int / 256);
    if w.ttype == TYPE_Q4_K {
        assert(144 * s + 144 <= w.bpr);
        assert(q4k_block(row, s) =~= blob.subrange(start + 144 * s, start + 144 * s + 144));
    } else {
        assert(210 * s + 210 <= w.bpr);
        assert(q6k_block(row, s) =~= blob.subrange(start + 210 * s, start + 210 * s + 210));
    }
}

/// The sums of a part of the activations are the part of the sums.
proof fn lemma_part_sums(xsum: Seq<i32>, mat: int, x: Seq<i8>, at: int, cols: int)
    requires
        0 <= cols,
        cols % 256 == 0,
        0 <= at && at + cols <= x.len(),
        0 <= mat && mat + cols / 32 <= xsum.len(),
        are_sums(xsum, mat, x, at, cols / 32),
    ensures
        row_sums(
            xsum.subrange(mat, mat + cols / 32),
            x.subrange(at, at + cols),
            cols / 256,
        ),
{
    let (y, ys) = (x.subrange(at, at + cols), xsum.subrange(mat, mat + cols / 32));
    assert(cols / 32 == 8 * (cols / 256));
    assert forall|b: int| 0 <= b < 8 * (cols / 256) implies #[trigger] ys[b] == sum(
        32,
        block_term(y, b),
    ) by {
        assert(ys[b] == xsum[mat + b]);
        let f = |i: int| x[at + 32 * b + i] as int;
        let g = block_term(y, b);
        assert forall|i: int| 0 <= i < 32 implies #[trigger] f(i) == g(i) by {
            assert(y[32 * b + i] == x[at + (32 * b + i)]);
            assert(at + (32 * b + i) == at + 32 * b + i);
        }
        lemma_sum_same(32, f, g);
    }
}

/// The columns of a row, from activations that stand among longer ones.
#[verifier::rlimit(40)]
proof fn lemma_columns<S: Scalar>(
    v: spec_fn(S) -> int,
    w: KMat,
    blob: Seq<u8>,
    r: int,
    x: Seq<i8>,
    at: int,
    xs: Seq<S>,
    sat: int,
    width: int,
    g: spec_fn(int) -> int,
)
    requires
        w.wf() && w.cols % 256 == 0 && 0 <= r && w.holds_row(blob, r),
        0 <= at && at + w.cols <= x.len(),
        width == 32 || width == 256,
        0 <= sat && sat + w.cols as int / width <= xs.len(),
        ({
            let y = x.subrange(at, at + w.cols);
            let ys = xs.subrange(sat, sat + w.cols as int / width);
            let row = w.row(blob, r);
            forall|j: int|
                0 <= j < w.cols ==> #[trigger] g(j) == v(
                    if w.ttype == TYPE_Q4_K {
                        q4k_plain::<S>(q4k_block(row, j / 256), j % 256)
                    } else {
                        q6k_plain::<S>(q6k_block(row, j / 256), j % 256)
                    },
                ) * v(ys[j / width]) * y[j]
        }),
    ensures
        sum(w.cols as int, g) == row_product(v, w, blob, r, x, at, xs, sat, width),
{
    let cols = w.cols as int;
    let y = x.subrange(at, at + cols);
    let ys = xs.subrange(sat, sat + cols / width);
    let f = |j: int| v(weight_at::<S>(w, blob, r, j)) * v(xs[sat + j / width]) * x[at + j];
    assert forall|j: int| 0 <= j < cols implies #[trigger] g(j) == f(j) by {
        lemma_weight::<S>(w, blob, r, j);
        assert(y[j] == x[at + j]);
        assert(0 <= j / width < cols / width);
        assert(ys[j / width] == xs[sat + j / width]);
    }
    lemma_sum_same(cols, g, f);
}

#[verifier::rlimit(40)]
proof fn lemma_q4_super<S: Scalar>(
    v: spec_fn(S) -> int,
    m: int,
    w: KMat,
    blob: Seq<u8>,
    r: int,
    x: Seq<i8>,
    at: int,
    xs: Seq<S>,
    sat: int,
    xsum: Seq<i32>,
    mat: int,
    grain: Grain,
)
    requires
        is_exact(v, m),
        is_served(
            w,
            blob,
            r,
            x.len() as int,
            at,
            xs.len() as int,
            sat,
            xsum.len() as int,
            mat,
            grain,
        ),
        are_sums(xsum, mat, x, at, w.cols as int / 32),
        w.ttype == TYPE_Q4_K && grain == Grain::Super,
    ensures
        congruent(
            v(
                w.row_value(
                    blob,
                    r,
                    x.subrange(at, at + w.cols),
                    xs.subrange(sat, sat + w.cols as int / grain.width()),
                    xsum.subrange(mat, mat + w.cols as int / 32),
                    grain,
                ),
            ),
            row_product(v, w, blob, r, x, at, xs, sat, grain.width()),
            m,
        ),
        grain == Grain::Split && w.ttype == TYPE_Q4_K ==> congruent(
            v(
                q4k_gu_value(
                    w.row(blob, r),
                    x.subrange(at, at + w.cols),
                    xs.subrange(sat, sat + w.cols as int / grain.width()),
                    xsum.subrange(mat, mat + w.cols as int / 32),
                    w.cols as int,
                ),
            ),
            row_product(v, w, blob, r, x, at, xs, sat, grain.width()),
            m,
        ),
{
    let (cols, n, width) = (w.cols as int, w.cols as int / 256, grain.width());
    let row = w.row(blob, r);
    let y = x.subrange(at, at + cols);
    let ys = xs.subrange(sat, sat + cols / width);
    lemma_part_sums(xsum, mat, x, at, cols);
    let yb = xsum.subrange(mat, mat + cols / 32);
    assert(256 * n == cols);
    assert(0 <= r * w.bpr) by (nonlinear_arith)
        requires
            0 <= r,
            0 <= w.bpr,
    ;
    assert(row.len() == w.bpr);
    q4k_row_is_dequantized_dot(v, m, row, y, ys, yb, n);
    lemma_columns(v, w, blob, r, x, at, xs, sat, width, q4k_column(v, row, y, ys));
}

#[verifier::rlimit(40)]
proof fn lemma_q4_blocks<S: Scalar>(
    v: spec_fn(S) -> int,
    m: int,
    w: KMat,
    blob: Seq<u8>,
    r: int,
    x: Seq<i8>,
    at: int,
    xs: Seq<S>,
    sat: int,
    xsum: Seq<i32>,
    mat: int,
    grain: Grain,
)
    requires
        is_exact(v, m),
        is_served(
            w,
            blob,
            r,
            x.len() as int,
            at,
            xs.len() as int,
            sat,
            xsum.len() as int,
            mat,
            grain,
        ),
        are_sums(xsum, mat, x, at, w.cols as int / 32),
        w.ttype == TYPE_Q4_K && grain != Grain::Super,
    ensures
        congruent(
            v(
                w.row_value(
                    blob,
                    r,
                    x.subrange(at, at + w.cols),
                    xs.subrange(sat, sat + w.cols as int / grain.width()),
                    xsum.subrange(mat, mat + w.cols as int / 32),
                    grain,
                ),
            ),
            row_product(v, w, blob, r, x, at, xs, sat, grain.width()),
            m,
        ),
        grain == Grain::Split && w.ttype == TYPE_Q4_K ==> congruent(
            v(
                q4k_gu_value(
                    w.row(blob, r),
                    x.subrange(at, at + w.cols),
                    xs.subrange(sat, sat + w.cols as int / grain.width()),
                    xsum.subrange(mat, mat + w.cols as int / 32),
                    w.cols as int,
                ),
            ),
            row_product(v, w, blob, r, x, at, xs, sat, grain.width()),
            m,
        ),
{
    let (cols, n, width) = (w.cols as int, w.cols as int / 256, grain.width());
    let row = w.row(blob, r);
    let y = x.subrange(at, at + cols);
    let ys = xs.subrange(sat, sat + cols / width);
    lemma_part_sums(xsum, mat, x, at, cols);
    let yb = xsum.subrange(mat, mat + cols / 32);
    assert(256 * n == cols);
    assert(0 <= r * w.bpr) by (nonlinear_arith)
        requires
            0 <= r,
            0 <= w.bpr,
    ;
    assert(row.len() == w.bpr);
    q4k_blocks_are_dequantized_dot(v, m, row, y, ys, yb, cols);
    q4k_split_is_dequantized_dot(v, m, row, y, ys, yb, cols);
    q4k_gu_is_dequantized_dot(v, m, row, y, ys, yb, cols);
    lemma_columns(v, w, blob, r, x, at, xs, sat, width, q4k_column32(v, row, y, ys));
}

#[verifier::rlimit(40)]
proof fn lemma_q6_super<S: Scalar>(
    v: spec_fn(S) -> int,
    m: int,
    w: KMat,
    blob: Seq<u8>,
    r: int,
    x: Seq<i8>,
    at: int,
    xs: Seq<S>,
    sat: int,
    xsum: Seq<i32>,
    mat: int,
    grain: Grain,
)
    requires
        is_exact(v, m),
        is_served(
            w,
            blob,
            r,
            x.len() as int,
            at,
            xs.len() as int,
            sat,
            xsum.len() as int,
            mat,
            grain,
        ),
        are_sums(xsum, mat, x, at, w.cols as int / 32),
        w.ttype != TYPE_Q4_K && grain == Grain::Super,
    ensures
        congruent(
            v(
                w.row_value(
                    blob,
                    r,
                    x.subrange(at, at + w.cols),
                    xs.subrange(sat, sat + w.cols as int / grain.width()),
                    xsum.subrange(mat, mat + w.cols as int / 32),
                    grain,
                ),
            ),
            row_product(v, w, blob, r, x, at, xs, sat, grain.width()),
            m,
        ),
        grain == Grain::Split && w.ttype == TYPE_Q4_K ==> congruent(
            v(
                q4k_gu_value(
                    w.row(blob, r),
                    x.subrange(at, at + w.cols),
                    xs.subrange(sat, sat + w.cols as int / grain.width()),
                    xsum.subrange(mat, mat + w.cols as int / 32),
                    w.cols as int,
                ),
            ),
            row_product(v, w, blob, r, x, at, xs, sat, grain.width()),
            m,
        ),
{
    let (cols, n, width) = (w.cols as int, w.cols as int / 256, grain.width());
    let row = w.row(blob, r);
    let y = x.subrange(at, at + cols);
    let ys = xs.subrange(sat, sat + cols / width);
    assert(256 * n == cols);
    assert(0 <= r * w.bpr) by (nonlinear_arith)
        requires
            0 <= r,
            0 <= w.bpr,
    ;
    assert(row.len() == w.bpr);
    q6k_row_is_dequantized_dot(v, m, row, y, ys, n);
    lemma_columns(v, w, blob, r, x, at, xs, sat, width, q6k_column(v, row, y, ys));
}

#[verifier::rlimit(40)]
proof fn lemma_q6_blocks<S: Scalar>(
    v: spec_fn(S) -> int,
    m: int,
    w: KMat,
    blob: Seq<u8>,
    r: int,
    x: Seq<i8>,
    at: int,
    xs: Seq<S>,
    sat: int,
    xsum: Seq<i32>,
    mat: int,
    grain: Grain,
)
    requires
        is_exact(v, m),
        is_served(
            w,
            blob,
            r,
            x.len() as int,
            at,
            xs.len() as int,
            sat,
            xsum.len() as int,
            mat,
            grain,
        ),
        are_sums(xsum, mat, x, at, w.cols as int / 32),
        w.ttype != TYPE_Q4_K && grain != Grain::Super,
    ensures
        congruent(
            v(
                w.row_value(
                    blob,
                    r,
                    x.subrange(at, at + w.cols),
                    xs.subrange(sat, sat + w.cols as int / grain.width()),
                    xsum.subrange(mat, mat + w.cols as int / 32),
                    grain,
                ),
            ),
            row_product(v, w, blob, r, x, at, xs, sat, grain.width()),
            m,
        ),
        grain == Grain::Split && w.ttype == TYPE_Q4_K ==> congruent(
            v(
                q4k_gu_value(
                    w.row(blob, r),
                    x.subrange(at, at + w.cols),
                    xs.subrange(sat, sat + w.cols as int / grain.width()),
                    xsum.subrange(mat, mat + w.cols as int / 32),
                    w.cols as int,
                ),
            ),
            row_product(v, w, blob, r, x, at, xs, sat, grain.width()),
            m,
        ),
{
    let (cols, n, width) = (w.cols as int, w.cols as int / 256, grain.width());
    let row = w.row(blob, r);
    let y = x.subrange(at, at + cols);
    let ys = xs.subrange(sat, sat + cols / width);
    assert(256 * n == cols);
    assert(0 <= r * w.bpr) by (nonlinear_arith)
        requires
            0 <= r,
            0 <= w.bpr,
    ;
    assert(row.len() == w.bpr);
    q6k_blocks_are_dequantized_dot(v, m, row, y, ys, n);
    q6k_split_is_dequantized_dot(v, m, row, y, ys, n);
    assert(n * 16 == 16 * n && n * 4 == 4 * n);
    lemma_columns(v, w, blob, r, x, at, xs, sat, width, q6k_column32(v, row, y, ys));
}

/// The value of a row of the weight file is its dequantized weights times the scaled
/// activations, in each of the ways in which it is added up.
pub proof fn row_value_is_the_product<S: Scalar>(
    v: spec_fn(S) -> int,
    m: int,
    w: KMat,
    blob: Seq<u8>,
    r: int,
    x: Seq<i8>,
    at: int,
    xs: Seq<S>,
    sat: int,
    xsum: Seq<i32>,
    mat: int,
    grain: Grain,
)
    requires
        is_exact(v, m),
        is_served(
            w,
            blob,
            r,
            x.len() as int,
            at,
            xs.len() as int,
            sat,
            xsum.len() as int,
            mat,
            grain,
        ),
        are_sums(xsum, mat, x, at, w.cols as int / 32),
    ensures
        congruent(
            v(
                w.row_value(
                    blob,
                    r,
                    x.subrange(at, at + w.cols),
                    xs.subrange(sat, sat + w.cols as int / grain.width()),
                    xsum.subrange(mat, mat + w.cols as int / 32),
                    grain,
                ),
            ),
            row_product(v, w, blob, r, x, at, xs, sat, grain.width()),
            m,
        ),
        grain == Grain::Split && w.ttype == TYPE_Q4_K ==> congruent(
            v(
                q4k_gu_value(
                    w.row(blob, r),
                    x.subrange(at, at + w.cols),
                    xs.subrange(sat, sat + w.cols as int / grain.width()),
                    xsum.subrange(mat, mat + w.cols as int / 32),
                    w.cols as int,
                ),
            ),
            row_product(v, w, blob, r, x, at, xs, sat, grain.width()),
            m,
        ),
{
    if w.ttype == TYPE_Q4_K {
        if grain == Grain::Super {
            lemma_q4_super(v, m, w, blob, r, x, at, xs, sat, xsum, mat, grain);
        } else {
            lemma_q4_blocks(v, m, w, blob, r, x, at, xs, sat, xsum, mat, grain);
        }
    } else {
        if grain == Grain::Super {
            lemma_q6_super(v, m, w, blob, r, x, at, xs, sat, xsum, mat, grain);
        } else {
            lemma_q6_blocks(v, m, w, blob, r, x, at, xs, sat, xsum, mat, grain);
        }
    }
}

/// The whole of the activations, taken as a part.
proof fn lemma_whole<T>(x: Seq<T>, n: int)
    requires
        x.len() == n,
    ensures
        x.subrange(0, 0 + n) == x,
{
    assert(x.subrange(0, 0 + n) =~= x);
}

/// A unit of the attention inputs is one row of the queries, the keys or the values, in
/// this order, times the whole of the input.
pub proof fn qkv_unit_is_its_row<S: Analytic>(
    v: spec_fn(S) -> int,
    m: int,
    model: Model<S>,
    c: Cfg,
    blob: Seq<u8>,
    layer: int,
    t: Turn<S>,
    b: Shared<S>,
    it: int,
    out: Seq<Piece<S>>,
    w: KMat,
    r: int,
)
    requires
        is_exact(v, m),
        ({
            let l = model.layers@[layer];
            let (nq, nk) = (c.nh * c.hd, c.nkv * c.hd);
            ||| it < nq && w == l.wq && r == it
            ||| nq <= it < nq + nk && w == l.wk && r == it - nq
            ||| nq + nk <= it && 0 <= nk && w == l.wv && r == it - nq - nk
        }),
        w.cols == b.levels@.len(),
        w.cols as int / model.grain.width() == b.scales@.len(),
        w.cols / 32 == b.sums@.len(),
        is_served(
            w,
            blob,
            r,
            b.levels@.len() as int,
            0,
            b.scales@.len() as int,
            0,
            b.sums@.len() as int,
            0,
            model.grain,
        ),
        are_sums(b.sums@, 0, b.levels@, 0, w.cols as int / 32),
        model.is_written(c, blob, Phase::Qkv, layer, t, b, it, out),
    ensures
        out.len() == 1 && out[0] is Reals && out[0]->Reals_0@.len() == 1,
        congruent(
            v(out[0]->Reals_0@[0]),
            row_product(v, w, blob, r, b.levels@, 0, b.scales@, 0, model.grain.width()),
            m,
        ),
{
    let (x, xs, xm) = (b.levels@, b.scales@, b.sums@);
    row_value_is_the_product(v, m, w, blob, r, x, 0, xs, 0, xm, 0, model.grain);
    lemma_whole(x, w.cols as int);
    lemma_whole(xs, w.cols as int / model.grain.width());
    lemma_whole(xm, w.cols as int / 32);
}

/// A unit of the attention output adds its row of the output projection to its number of
/// the stream.
pub proof fn project_unit_adds_its_row<S: Analytic>(
    v: spec_fn(S) -> int,
    m: int,
    model: Model<S>,
    c: Cfg,
    blob: Seq<u8>,
    layer: int,
    t: Turn<S>,
    b: Shared<S>,
    it: int,
    out: Seq<Piece<S>>,
)
    requires
        is_exact(v, m),
        ({
            let w = model.layers@[layer].wo;
            &&& w.cols == b.mixed_levels@.len()
            &&& w.cols as int / model.grain.width() == b.mixed_scales@.len()
            &&& w.cols / 32 == b.mixed_sums@.len()
            &&& is_served(
                w,
                blob,
                it,
                b.mixed_levels@.len() as int,
                0,
                b.mixed_scales@.len() as int,
                0,
                b.mixed_sums@.len() as int,
                0,
                model.grain,
            )
            &&& are_sums(b.mixed_sums@, 0, b.mixed_levels@, 0, w.cols as int / 32)
        }),
        model.is_written(c, blob, Phase::Project, layer, t, b, it, out),
    ensures
        out.len() == 1 && out[0] is Reals && out[0]->Reals_0@.len() == 1,
        congruent(
            v(out[0]->Reals_0@[0]),
            v(b.own@[0]) + row_product(
                v,
                model.layers@[layer].wo,
                blob,
                it,
                b.mixed_levels@,
                0,
                b.mixed_scales@,
                0,
                model.grain.width(),
            ),
            m,
        ),
{
    let w = model.layers@[layer].wo;
    let (x, xs, xm) = (b.mixed_levels@, b.mixed_scales@, b.mixed_sums@);
    row_value_is_the_product(v, m, w, blob, it, x, 0, xs, 0, xm, 0, model.grain);
    lemma_whole(x, w.cols as int);
    lemma_whole(xs, w.cols as int / model.grain.width());
    lemma_whole(xm, w.cols as int / 32);
    let row = w.row_value(blob, it, x, xs, xm, model.grain);
    let p = row_product(v, w, blob, it, x, 0, xs, 0, model.grain.width());
    let own = b.own@[0];
    lemma_congruent_same(v(own), m);
    lemma_congruent_plus(v(own), v(own), v(row), p, m);
    lemma_congruent_through(v(own.plus_spec(row)), v(own) + v(row), v(own) + p, m);
}

/// A unit of the router is the inner product of the expert's row and the whole of the
/// input.
pub proof fn route_unit_is_its_row<S: Analytic>(
    v: spec_fn(S) -> int,
    m: int,
    model: Model<S>,
    c: Cfg,
    blob: Seq<u8>,
    layer: int,
    t: Turn<S>,
    b: Shared<S>,
    it: int,
    out: Seq<Piece<S>>,
)
    requires
        is_exact(v, m),
        model.is_written(c, blob, Phase::Route, layer, t, b, it, out),
    ensures
        out.len() == 1 && out[0] is Reals && out[0]->Reals_0@.len() == 1,
        congruent(
            v(out[0]->Reals_0@[0]),
            sum(
                c.d as int,
                |j: int| v(model.layers@[layer].gate_inp@[it * c.d + j]) * v(b.normed@[j]),
            ),
            m,
        ),
{
    let (w, x, d) = (model.layers@[layer].gate_inp@, b.normed@, c.d as int);
    products_are_an_inner_product(v, m, S::zero_spec(), w, it * d, x, 0, d);
    let g = |j: int| v(w[it * c.d + j]) * v(x[j]);
    lemma_sum_same(d, |j: int| v(w[it * d + j]) * v(x[0 + j]), g);
    let s = sum(d, g);
    lemma_congruent_same(s, m);
    lemma_congruent_plus(v(S::zero_spec()), 0, s, s, m);
    lemma_congruent_through(v(out[0]->Reals_0@[0]), v(S::zero_spec()) + s, 0 + s, m);
}

/// A unit of the hidden layers is the activation of row `row` of a chosen expert: of the
/// row of the gating and of the row of the up projection, each times the whole of the
/// input. The chosen experts come one after another, with all rows of an expert in a run.
#[verifier::rlimit(40)]
pub proof fn gate_up_unit_is_its_rows<S: Analytic>(
    v: spec_fn(S) -> int,
    m: int,
    model: Model<S>,
    c: Cfg,
    blob: Seq<u8>,
    layer: int,
    t: Turn<S>,
    b: Shared<S>,
    slot: int,
    row: int,
    out: Seq<Piece<S>>,
) -> (r: (S, S))
    requires
        is_exact(v, m),
        0 <= slot < t.top@.len(),
        0 <= row < c.ffexp,
        ({
            let l = model.layers@[layer];
            let at = t.top@[slot] * c.ffexp + row;
            let (nx, ns, nm) = (
                b.levels@.len() as int,
                b.scales@.len() as int,
                b.sums@.len() as int,
            );
            &&& l.gate.cols == c.d == nx && l.up.cols == c.d
            &&& c.d as int / model.grain.width() == ns && c.d / 32 == nm
            &&& is_served(l.gate, blob, at, nx, 0, ns, 0, nm, 0, model.grain)
            &&& is_served(l.up, blob, at, nx, 0, ns, 0, nm, 0, model.grain)
        }),
        are_sums(b.sums@, 0, b.levels@, 0, c.d as int / 32),
        model.is_written(c, blob, Phase::GateUp, layer, t, b, slot * c.ffexp + row, out),
    ensures
        out.len() == 1 && out[0] is Reals && out[0]->Reals_0@.len() == 1,
        out[0]->Reals_0@[0] == plain_gate(r.0, r.1),
        ({
            let l = model.layers@[layer];
            let at = t.top@[slot] * c.ffexp + row;
            let (x, xs, width) = (b.levels@, b.scales@, model.grain.width());
            &&& congruent(v(r.0), row_product(v, l.gate, blob, at, x, 0, xs, 0, width), m)
            &&& congruent(v(r.1), row_product(v, l.up, blob, at, x, 0, xs, 0, width), m)
        }),
{
    let l = model.layers@[layer];
    let it = slot * c.ffexp + row;
    lemma_fundamental_div_mod_converse(it, c.ffexp as int, slot, row);
    let at = t.top@[slot] * c.ffexp + row;
    let (x, xs, xm, g) = (b.levels@, b.scales@, b.sums@, model.grain);
    row_value_is_the_product(v, m, l.gate, blob, at, x, 0, xs, 0, xm, 0, g);
    row_value_is_the_product(v, m, l.up, blob, at, x, 0, xs, 0, xm, 0, g);
    lemma_whole(x, c.d as int);
    lemma_whole(xs, c.d as int / g.width());
    lemma_whole(xm, c.d as int / 32);
    l.gate_up_value(c, blob, at, x, xs, xm, g)
}

/// What the first `n` chosen experts add to number `r` of the stream: each its weight
/// times its row of the down projection, which is multiplied with its own hidden layer.
pub open spec fn experts_add<S: Scalar>(
    v: spec_fn(S) -> int,
    l: Layer<S>,
    c: Cfg,
    blob: Seq<u8>,
    r: int,
    top: Seq<usize>,
    weights: Seq<S>,
    h: Seq<i8>,
    hs: Seq<S>,
    width: int,
    n: int,
) -> int {
    sum(
        n,
        |k: int|
            v(weights[k]) * row_product(
                v,
                l.down,
                blob,
                top[k] * c.d + r,
                h,
                k * c.ffexp,
                hs,
                k * (c.ffexp as int / width),
                width,
            ),
    )
}

#[verifier::rlimit(40)]
proof fn lemma_stream<S: Analytic>(
    v: spec_fn(S) -> int,
    m: int,
    l: Layer<S>,
    c: Cfg,
    blob: Seq<u8>,
    r: int,
    x: S,
    top: Seq<usize>,
    weights: Seq<S>,
    h: Seq<i8>,
    hs: Seq<S>,
    hm: Seq<i32>,
    grain: Grain,
    n: int,
)
    requires
        is_exact(v, m),
        c.ffexp % 256 == 0,
        l.down.wf() && l.down.cols == c.ffexp,
        0 <= r,
        0 <= n <= top.len(),
        forall|k: int| 0 <= k < n ==> l.down.holds_row(blob, #[trigger] top[k] * c.d + r),
        h.len() == top.len() * c.ffexp,
        hs.len() == top.len() * (c.ffexp as int / grain.width()),
        hm.len() == top.len() * (c.ffexp as int / 32),
        forall|k: int|
            0 <= k < n ==> are_sums(
                hm,
                #[trigger] (k * (c.ffexp as int / 32)),
                h,
                k * c.ffexp,
                c.ffexp as int / 32,
            ),
    ensures
        congruent(
            v(l.stream_value(c, blob, r, x, top, weights, h, hs, hm, grain, n)),
            v(x) + experts_add(v, l, c, blob, r, top, weights, h, hs, grain.width(), n),
            m,
        ),
    decreases n,
{
    let (w, nb, ns) = (c.ffexp as int, c.ffexp as int / 32, c.ffexp as int / grain.width());
    let f = |k: int|
        v(weights[k]) * row_product(
            v,
            l.down,
            blob,
            top[k] * c.d + r,
            h,
            k * c.ffexp,
            hs,
            k * (c.ffexp as int / grain.width()),
            grain.width(),
        );
    if n > 0 {
        let k: int = n - 1;
        lemma_stream(v, m, l, c, blob, r, x, top, weights, h, hs, hm, grain, k);
        let before = l.stream_value(c, blob, r, x, top, weights, h, hs, hm, grain, k);
        let row = top[k] * c.d + r;
        assert(0 <= top[k] * c.d) by (nonlinear_arith);
        lemma_in_runs(k, top.len() as int, w);
        lemma_in_runs(k, top.len() as int, ns);
        lemma_in_runs(k, top.len() as int, nb);
        assert(l.down.holds_row(blob, top[k] * c.d + r));
        assert(are_sums(hm, k * (c.ffexp as int / 32), h, k * c.ffexp, c.ffexp as int / 32));
        row_value_is_the_product(
            v,
            m,
            l.down,
            blob,
            row,
            h,
            k * w,
            hs,
            k * ns,
            hm,
            k * nb,
            grain,
        );
        let value = l.down.row_value(
            blob,
            row,
            h.subrange(k * w, k * w + w),
            hs.subrange(k * ns, k * ns + ns),
            hm.subrange(k * nb, k * nb + nb),
            grain,
        );
        let p = row_product(v, l.down, blob, row, h, k * w, hs, k * ns, grain.width());
        let q = weights[k];
        lemma_congruent_same(v(q), m);
        lemma_congruent_times(v(q), v(q), v(value), p, m);
        let now = before.mul_plus_spec(q, value);
        assert(now == l.stream_value(c, blob, r, x, top, weights, h, hs, hm, grain, n));
        let sofar = v(x) + sum(k, f);
        lemma_congruent_plus(v(before), sofar, v(q) * v(value), v(q) * p, m);
        lemma_congruent_through(v(now), v(before) + v(q) * v(value), sofar + v(q) * p, m);
        assert(f(k) == v(q) * p);
        assert(sum(n, f) == sum(k, f) + f(k));
    } else {
        lemma_congruent_same(v(x), m);
    }
}

/// A unit of the expert outputs adds to its number of the stream, for every chosen expert
/// once, the weight of the expert times the expert's row, which is multiplied with the
/// expert's own hidden layer.
pub proof fn down_unit_adds_all_experts<S: Analytic>(
    v: spec_fn(S) -> int,
    m: int,
    model: Model<S>,
    c: Cfg,
    blob: Seq<u8>,
    layer: int,
    t: Turn<S>,
    b: Shared<S>,
    it: int,
    out: Seq<Piece<S>>,
)
    requires
        is_exact(v, m),
        0 <= it,
        c.ffexp % 256 == 0,
        t.top@.len() == c.topk,
        model.layers@[layer].down.wf() && model.layers@[layer].down.cols == c.ffexp,
        forall|k: int|
            0 <= k < c.topk ==> model.layers@[layer].down.holds_row(
                blob,
                #[trigger] t.top@[k] * c.d + it,
            ),
        b.hidden_levels@.len() == c.topk * c.ffexp,
        b.hidden_scales@.len() == c.topk * (c.ffexp as int / model.grain.width()),
        b.hidden_sums@.len() == c.topk * (c.ffexp as int / 32),
        forall|k: int|
            0 <= k < c.topk ==> are_sums(
                b.hidden_sums@,
                #[trigger] (k * (c.ffexp as int / 32)),
                b.hidden_levels@,
                k * c.ffexp,
                c.ffexp as int / 32,
            ),
        model.is_written(c, blob, Phase::Down, layer, t, b, it, out),
    ensures
        out.len() == 1 && out[0] is Reals && out[0]->Reals_0@.len() == 1,
        congruent(
            v(out[0]->Reals_0@[0]),
            v(b.own@[0]) + experts_add(
                v,
                model.layers@[layer],
                c,
                blob,
                it,
                t.top@,
                t.weights@,
                b.hidden_levels@,
                b.hidden_scales@,
                model.grain.width(),
                c.topk as int,
            ),
            m,
        ),
{
    lemma_stream(
        v,
        m,
        model.layers@[layer],
        c,
        blob,
        it,
        b.own@[0],
        t.top@,
        t.weights@,
        b.hidden_levels@,
        b.hidden_scales@,
        b.hidden_sums@,
        model.grain,
        c.topk as int,
    );
}

/// The logit of a token is the token's row of the output weights times the whole of the
/// input.
pub proof fn logits_are_their_rows<S: Analytic>(
    v: spec_fn(S) -> int,
    m: int,
    model: Model<S>,
    blob: Seq<u8>,
    b: Shared<S>,
    run: (usize, usize),
    i: int,
)
    requires
        is_exact(v, m),
        0 <= i < run.1 - run.0,
        model.head.cols == b.levels@.len(),
        model.head.cols as int / model.grain.width() == b.scales@.len(),
        model.head.cols / 32 == b.sums@.len(),
        is_served(
            model.head,
            blob,
            run.0 + i,
            b.levels@.len() as int,
            0,
            b.scales@.len() as int,
            0,
            b.sums@.len() as int,
            0,
            model.grain,
        ),
        are_sums(b.sums@, 0, b.levels@, 0, model.head.cols as int / 32),
    ensures
        logits_of(model, blob, b, run).len() == run.1 - run.0,
        congruent(
            v(logits_of(model, blob, b, run)[i]),
            row_product(
                v,
                model.head,
                blob,
                run.0 + i,
                b.levels@,
                0,
                b.scales@,
                0,
                model.grain.width(),
            ),
            m,
        ),
{
    let w = model.head;
    let (x, xs, xm) = (b.levels@, b.scales@, b.sums@);
    row_value_is_the_product(v, m, w, blob, run.0 + i, x, 0, xs, 0, xm, 0, model.grain);
    lemma_whole(x, w.cols as int);
    lemma_whole(xs, w.cols as int / model.grain.width());
    lemma_whole(xm, w.cols as int / 32);
}

} // verus!
