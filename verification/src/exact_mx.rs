//! MXFP4 rows on numbers whose arithmetic does not round: a row has the value of its
//! dequantized weights, with a scale for each 32 activations or one for all.
use crate::arith::{lemma_product_bounds, lemma_sum_split, sum};
use crate::exact::{
    congruent, is_exact, lemma_congruent_flip, lemma_congruent_plus, lemma_congruent_same,
    lemma_congruent_sum, lemma_congruent_through, lemma_congruent_times,
};
use crate::exact_rows::{
    all, lemma_factored, lemma_four_zeros, lemma_grown, lemma_lane_small, lemma_onward,
    lemma_paired,
};
use crate::lanes::{lane, lanes_add_up, paired, quarter, scaled};
use crate::mxfp4::{
    block_at, mx_code, mx_plain_lane, mx_plain_value, mx_row_lane, mx_row_value, mx_term, mx_value,
    mx_weight, quad_value, repacked_quad_has_row_values, QuadMx,
};
use crate::scalar::Scalar;
use vstd::prelude::*;

verus! {

/// Column `j` of row `r`: twice the value of its code, times its activation, times
/// the block's power of two and the scale of its activations.
pub open spec fn mx_column<S: Scalar>(
    v: spec_fn(S) -> int,
    raw: Seq<u8>,
    blocks: int,
    r: int,
    x: Seq<i8>,
    xs: Seq<S>,
    pow: Seq<S>,
) -> spec_fn(int) -> int {
    |j: int|
        {
            let at = block_at(blocks, r, j / 32);
            mx_value(mx_code(raw, at + 1, j % 32)) * x[j] * (v(pow[raw[at] as int]) * v(xs[j / 32]))
        }
}

/// Column `j` of row `r` before the scale of the activations is multiplied in.
pub open spec fn mx_plain_column<S: Scalar>(
    v: spec_fn(S) -> int,
    raw: Seq<u8>,
    blocks: int,
    r: int,
    x: Seq<i8>,
    pow: Seq<S>,
) -> spec_fn(int) -> int {
    |j: int|
        {
            let at = block_at(blocks, r, j / 32);
            mx_value(mx_code(raw, at + 1, j % 32)) * x[j] * v(pow[raw[at] as int])
        }
}

/// What a block adds to the lanes is the sum of its products times its scale, which
/// stands for `g`.
proof fn lemma_mx_block<S: Scalar>(
    v: spec_fn(S) -> int,
    m: int,
    nib: Seq<u8>,
    at: int,
    x: Seq<i8>,
    b: int,
    scale: S,
    g: int,
    column: spec_fn(int) -> int,
)
    requires
        is_exact(v, m),
        0 <= b,
        congruent(v(scale), g, m),
        forall|i: int|
            0 <= i < 32 ==> #[trigger] column(32 * b + i) == mx_value(mx_code(nib, at, i)) * x[32
                * b + i] * g,
    ensures
        ({
            let f = mx_term(nib, at, x, 32 * b);
            &&& congruent(
                sum(32, f) * v(scale) + sum(32 * b, column),
                sum(32 * (b + 1), column),
                m,
            )
            &&& lane(f, 0) + lane(f, 1) + lane(f, 2) + lane(f, 3) == sum(32, f)
            &&& forall|l: int| 0 <= l < 4 ==> -0x10_0000 <= #[trigger] lane(f, l) <= 0x10_0000
        }),
{
    let f = mx_term(nib, at, x, 32 * b);
    assert forall|i: int| 0 <= i < 32 implies -1536 <= #[trigger] f(i) <= 1536 by {
        lemma_product_bounds(mx_value(mx_code(nib, at, i)), x[32 * b + i] as int, 12, 128);
    }
    lemma_lane_small(f, 8, 1536);
    assert forall|l: int| 0 <= l < 4 implies -0x10_0000 <= #[trigger] lane(f, l) <= 0x10_0000 by {
        assert(-6144 <= quarter(f, l) <= 6144 && -6144 <= quarter(f, l + 4) <= 6144);
    }
    lanes_add_up(f);
    let tail = |i: int| f(i) * g;
    lemma_factored(32, g, f, tail);
    assert forall|i: int| 0 <= i < 32 implies #[trigger] tail(i) == column(32 * b + i) by {}
    lemma_sum_split(32 * b, 32, column, tail);
    lemma_congruent_same(sum(32, f), m);
    lemma_congruent_times(sum(32, f), sum(32, f), v(scale), g, m);
    lemma_congruent_same(sum(32 * b, column), m);
    lemma_congruent_plus(
        sum(32, f) * v(scale),
        sum(32, f) * g,
        sum(32 * b, column),
        sum(32 * b, column),
        m,
    );
}

/// Four lanes that held the columns of `b` blocks and took a step each hold those of
/// one block more.
proof fn lemma_mx_step<S: Scalar>(
    v: spec_fn(S) -> int,
    m: int,
    nib: Seq<u8>,
    at: int,
    x: Seq<i8>,
    b: int,
    scale: S,
    g: int,
    column: spec_fn(int) -> int,
    was: (S, S, S, S),
)
    requires
        is_exact(v, m),
        0 <= b,
        congruent(v(scale), g, m),
        forall|i: int|
            0 <= i < 32 ==> #[trigger] column(32 * b + i) == mx_value(mx_code(nib, at, i)) * x[32
                * b + i] * g,
        congruent(all(v, was.0, was.1, was.2, was.3), sum(32 * b, column), m),
    ensures
        ({
            let f = mx_term(nib, at, x, 32 * b);
            congruent(
                all(
                    v,
                    scaled(was.0, lane(f, 0), scale),
                    scaled(was.1, lane(f, 1), scale),
                    scaled(was.2, lane(f, 2), scale),
                    scaled(was.3, lane(f, 3), scale),
                ),
                sum(32 * (b + 1), column),
                m,
            )
        }),
{
    lemma_mx_block(v, m, nib, at, x, b, scale, g, column);
    let f = mx_term(nib, at, x, 32 * b);
    let dots = (lane(f, 0), lane(f, 1), lane(f, 2), lane(f, 3));
    lemma_grown(v, m, was.0, was.1, was.2, was.3, dots, scale);
    lemma_onward(
        all(
            v,
            scaled(was.0, dots.0, scale),
            scaled(was.1, dots.1, scale),
            scaled(was.2, dots.2, scale),
            scaled(was.3, dots.3, scale),
        ),
        all(v, was.0, was.1, was.2, was.3),
        sum(32, f) * v(scale),
        sum(32 * b, column),
        sum(32 * (b + 1), column),
        m,
    );
}

proof fn lemma_mx_lanes<S: Scalar>(
    v: spec_fn(S) -> int,
    m: int,
    raw: Seq<u8>,
    blocks: int,
    r: int,
    x: Seq<i8>,
    xs: Seq<S>,
    pow: Seq<S>,
    n: int,
)
    requires
        is_exact(v, m),
        0 <= n,
    ensures
        congruent(
            all(
                v,
                mx_row_lane(raw, blocks, r, x, xs, pow, 0, n),
                mx_row_lane(raw, blocks, r, x, xs, pow, 1, n),
                mx_row_lane(raw, blocks, r, x, xs, pow, 2, n),
                mx_row_lane(raw, blocks, r, x, xs, pow, 3, n),
            ),
            sum(32 * n, mx_column(v, raw, blocks, r, x, xs, pow)),
            m,
        ),
    decreases n,
{
    let column = mx_column(v, raw, blocks, r, x, xs, pow);
    if n == 0 {
        lemma_four_zeros(v, m);
    } else {
        let k = n - 1;
        lemma_mx_lanes(v, m, raw, blocks, r, x, xs, pow, k);
        let at = block_at(blocks, r, k);
        let scale = pow[raw[at] as int].times_spec(xs[k]);
        assert forall|i: int| 0 <= i < 32 implies #[trigger] column(32 * k + i) == mx_value(
            mx_code(raw, at + 1, i),
        ) * x[32 * k + i] * (v(pow[raw[at] as int]) * v(xs[k])) by {
            assert((32 * k + i) / 32 == k && (32 * k + i) % 32 == i);
        }
        lemma_mx_step(
            v,
            m,
            raw,
            at + 1,
            x,
            k,
            scale,
            v(pow[raw[at] as int]) * v(xs[k]),
            column,
            (
                mx_row_lane(raw, blocks, r, x, xs, pow, 0, k),
                mx_row_lane(raw, blocks, r, x, xs, pow, 1, k),
                mx_row_lane(raw, blocks, r, x, xs, pow, 2, k),
                mx_row_lane(raw, blocks, r, x, xs, pow, 3, k),
            ),
        );
    }
}

proof fn lemma_mx_plain_lanes<S: Scalar>(
    v: spec_fn(S) -> int,
    m: int,
    raw: Seq<u8>,
    blocks: int,
    r: int,
    x: Seq<i8>,
    pow: Seq<S>,
    n: int,
)
    requires
        is_exact(v, m),
        0 <= n,
    ensures
        congruent(
            all(
                v,
                mx_plain_lane(raw, blocks, r, x, pow, 0, n),
                mx_plain_lane(raw, blocks, r, x, pow, 1, n),
                mx_plain_lane(raw, blocks, r, x, pow, 2, n),
                mx_plain_lane(raw, blocks, r, x, pow, 3, n),
            ),
            sum(32 * n, mx_plain_column(v, raw, blocks, r, x, pow)),
            m,
        ),
    decreases n,
{
    let column = mx_plain_column(v, raw, blocks, r, x, pow);
    if n == 0 {
        lemma_four_zeros(v, m);
    } else {
        let k = n - 1;
        lemma_mx_plain_lanes(v, m, raw, blocks, r, x, pow, k);
        let at = block_at(blocks, r, k);
        let scale = pow[raw[at] as int];
        lemma_congruent_same(v(scale), m);
        assert forall|i: int| 0 <= i < 32 implies #[trigger] column(32 * k + i) == mx_value(
            mx_code(raw, at + 1, i),
        ) * x[32 * k + i] * v(scale) by {
            assert((32 * k + i) / 32 == k && (32 * k + i) % 32 == i);
        }
        lemma_mx_step(
            v,
            m,
            raw,
            at + 1,
            x,
            k,
            scale,
            v(scale),
            column,
            (
                mx_plain_lane(raw, blocks, r, x, pow, 0, k),
                mx_plain_lane(raw, blocks, r, x, pow, 1, k),
                mx_plain_lane(raw, blocks, r, x, pow, 2, k),
                mx_plain_lane(raw, blocks, r, x, pow, 3, k),
            ),
        );
    }
}

/// A dequantized weight stands for twice the value of its code times the block's
/// power.
proof fn lemma_mx_weight<S: Scalar>(
    v: spec_fn(S) -> int,
    m: int,
    raw: Seq<u8>,
    blocks: int,
    r: int,
    j: int,
    pow: Seq<S>,
)
    requires
        is_exact(v, m),
    ensures
        ({
            let at = block_at(blocks, r, j / 32);
            congruent(
                mx_value(mx_code(raw, at + 1, j % 32)) * v(pow[raw[at] as int]),
                v(mx_weight(raw, blocks, r, j, pow)),
                m,
            )
        }),
{
    let at = block_at(blocks, r, j / 32);
    let (code, p) = (mx_value(mx_code(raw, at + 1, j % 32)), pow[raw[at] as int]);
    let n = S::of_int_spec(code as i64);
    lemma_congruent_same(v(p), m);
    lemma_congruent_times(v(n), code, v(p), v(p), m);
    lemma_congruent_through(v(n.times_spec(p)), v(n) * v(p), code * v(p), m);
    lemma_congruent_flip(v(n.times_spec(p)), code * v(p), m);
}

/// An MXFP4 row of `n` blocks, with a scale for each 32 activations, is the dot product
/// of the doubled values of its codes with the activations, each block times its power
/// and its scale; and so of its dequantized weights with the scaled activations.
pub proof fn mx_row_is_dequantized_dot<S: Scalar>(
    v: spec_fn(S) -> int,
    m: int,
    raw: Seq<u8>,
    blocks: int,
    r: int,
    x: Seq<i8>,
    xs: Seq<S>,
    pow: Seq<S>,
    n: int,
)
    requires
        is_exact(v, m),
        0 <= n,
    ensures
        congruent(
            v(mx_row_value(raw, blocks, r, x, xs, pow, n)),
            sum(32 * n, mx_column(v, raw, blocks, r, x, xs, pow)),
            m,
        ),
        congruent(
            v(mx_row_value(raw, blocks, r, x, xs, pow, n)),
            sum(
                32 * n,
                |j: int| v(mx_weight(raw, blocks, r, j, pow)) * v(xs[j / 32]) * x[j],
            ),
            m,
        ),
{
    lemma_mx_lanes(v, m, raw, blocks, r, x, xs, pow, n);
    let (a, b, c, d) = (
        mx_row_lane(raw, blocks, r, x, xs, pow, 0, n),
        mx_row_lane(raw, blocks, r, x, xs, pow, 1, n),
        mx_row_lane(raw, blocks, r, x, xs, pow, 2, n),
        mx_row_lane(raw, blocks, r, x, xs, pow, 3, n),
    );
    let column = mx_column(v, raw, blocks, r, x, xs, pow);
    let value = v(paired(a, b, c, d));
    lemma_paired(v, m, a, b, c, d);
    lemma_congruent_through(value, all(v, a, b, c, d), sum(32 * n, column), m);
    let h = |j: int| v(mx_weight(raw, blocks, r, j, pow)) * v(xs[j / 32]) * x[j];
    assert forall|j: int| 0 <= j < 32 * n implies congruent(#[trigger] column(j), h(j), m) by {
        lemma_mx_weight(v, m, raw, blocks, r, j, pow);
        let at = block_at(blocks, r, j / 32);
        let (code, p) = (mx_value(mx_code(raw, at + 1, j % 32)), v(pow[raw[at] as int]));
        let (w, y, t) = (v(mx_weight(raw, blocks, r, j, pow)), v(xs[j / 32]), x[j] as int);
        lemma_congruent_same(y * t, m);
        lemma_congruent_times(code * p, w, y * t, y * t, m);
        assert(code * t * (p * y) == code * p * (y * t)) by (nonlinear_arith);
        assert(w * y * t == w * (y * t)) by (nonlinear_arith);
    }
    lemma_congruent_sum(32 * n, column, h, m);
    lemma_congruent_through(value, sum(32 * n, column), sum(32 * n, h), m);
}

/// An MXFP4 row whose activations have one scale is, before that scale is multiplied
/// in, the dot product of the doubled values of its codes with the activations, each
/// block times its power; and so of its dequantized weights with the activations.
pub proof fn mx_plain_row_is_dequantized_dot<S: Scalar>(
    v: spec_fn(S) -> int,
    m: int,
    raw: Seq<u8>,
    blocks: int,
    r: int,
    x: Seq<i8>,
    pow: Seq<S>,
    n: int,
)
    requires
        is_exact(v, m),
        0 <= n,
    ensures
        congruent(
            v(mx_plain_value(raw, blocks, r, x, pow, n)),
            sum(32 * n, mx_plain_column(v, raw, blocks, r, x, pow)),
            m,
        ),
        congruent(
            v(mx_plain_value(raw, blocks, r, x, pow, n)),
            sum(32 * n, |j: int| v(mx_weight(raw, blocks, r, j, pow)) * x[j]),
            m,
        ),
{
    lemma_mx_plain_lanes(v, m, raw, blocks, r, x, pow, n);
    let (a, b, c, d) = (
        mx_plain_lane(raw, blocks, r, x, pow, 0, n),
        mx_plain_lane(raw, blocks, r, x, pow, 1, n),
        mx_plain_lane(raw, blocks, r, x, pow, 2, n),
        mx_plain_lane(raw, blocks, r, x, pow, 3, n),
    );
    let column = mx_plain_column(v, raw, blocks, r, x, pow);
    let value = v(paired(a, b, c, d));
    lemma_paired(v, m, a, b, c, d);
    lemma_congruent_through(value, all(v, a, b, c, d), sum(32 * n, column), m);
    let h = |j: int| v(mx_weight(raw, blocks, r, j, pow)) * x[j];
    assert forall|j: int| 0 <= j < 32 * n implies congruent(#[trigger] column(j), h(j), m) by {
        lemma_mx_weight(v, m, raw, blocks, r, j, pow);
        let at = block_at(blocks, r, j / 32);
        let (code, p) = (mx_value(mx_code(raw, at + 1, j % 32)), v(pow[raw[at] as int]));
        let (w, t) = (v(mx_weight(raw, blocks, r, j, pow)), x[j] as int);
        lemma_congruent_same(t, m);
        lemma_congruent_times(code * p, w, t, t, m);
        assert(code * t * p == code * p * t) by (nonlinear_arith);
    }
    lemma_congruent_sum(32 * n, column, h, m);
    lemma_congruent_through(value, sum(32 * n, column), sum(32 * n, h), m);
}

/// A row with its one scale multiplied in and its bias added is the scaled dot product
/// plus the bias.
pub proof fn mx_biased_row_is_dequantized_dot<S: Scalar>(
    v: spec_fn(S) -> int,
    m: int,
    raw: Seq<u8>,
    blocks: int,
    r: int,
    x: Seq<i8>,
    scale: S,
    bias: S,
    pow: Seq<S>,
    n: int,
)
    requires
        is_exact(v, m),
        0 <= n,
    ensures
        congruent(
            v(mx_plain_value(raw, blocks, r, x, pow, n).times_spec(scale).plus_spec(bias)),
            sum(32 * n, |j: int| v(mx_weight(raw, blocks, r, j, pow)) * x[j]) * v(scale) + v(bias),
            m,
        ),
{
    mx_plain_row_is_dequantized_dot(v, m, raw, blocks, r, x, pow, n);
    let row = mx_plain_value(raw, blocks, r, x, pow, n);
    let dot = sum(32 * n, |j: int| v(mx_weight(raw, blocks, r, j, pow)) * x[j]);
    let p = row.times_spec(scale);
    lemma_congruent_same(v(scale), m);
    lemma_congruent_times(v(row), dot, v(scale), v(scale), m);
    lemma_congruent_through(v(p), v(row) * v(scale), dot * v(scale), m);
    lemma_congruent_same(v(bias), m);
    lemma_congruent_plus(v(p), dot * v(scale), v(bias), v(bias), m);
    lemma_congruent_through(v(p.plus_spec(bias)), v(p) + v(bias), dot * v(scale) + v(bias), m);
}

/// Each row of a repacked quad has the value of its dequantized weights.
pub proof fn quad_row_is_dequantized_dot<S: Scalar>(
    v: spec_fn(S) -> int,
    m: int,
    quads: QuadMx,
    raw: Seq<u8>,
    rows: int,
    blocks: int,
    q: int,
    r: int,
    x: Seq<i8>,
    xs: Seq<S>,
    pow: Seq<S>,
)
    requires
        is_exact(v, m),
        quads.of(raw, rows, blocks),
        0 <= q < rows / 4,
        0 <= r < 4,
        0 <= blocks,
    ensures
        congruent(
            v(quad_value(quads.nib@, quads.exps@, blocks, q, r, x, xs, pow, blocks)),
            sum(
                32 * blocks,
                |j: int| v(mx_weight(raw, blocks, 4 * q + r, j, pow)) * v(xs[j / 32]) * x[j],
            ),
            m,
        ),
{
    repacked_quad_has_row_values(quads, raw, rows, blocks, q, r, x, xs, pow, blocks);
    mx_row_is_dequantized_dot(v, m, raw, blocks, 4 * q + r, x, xs, pow, blocks);
}

} // verus!
