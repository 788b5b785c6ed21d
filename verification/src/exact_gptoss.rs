//! What the items of a forward pass of the model with an attention window come to
//! where nothing rounds, from the weights themselves: which row each item multiplies
//! with which activations, and where its bias and its weight stand.
use crate::analytic::Analytic;
use crate::arith::{lemma_sum_same, sum};
use crate::config::Cfg;
use crate::dense::products;
use crate::exact::{
    congruent, is_exact, lemma_congruent_plus, lemma_congruent_same, lemma_congruent_through,
    lemma_congruent_times,
};
use crate::exact_mx::quad_row_is_dequantized_dot;
use crate::exact_rows::{q8_column, q8_row_is_scaled_dot, q8_split_row_is_scaled_dot};
use crate::gptoss::Layer;
use crate::gptoss_pass::{Model, Shared, Turn};
use crate::lanes::Chain;
use crate::mxfp4::{mx_weight, quad_value, QuadMx};
use crate::piece::Piece;
use crate::q8::Q8Mat;
use crate::scalar::Scalar;
use crate::schedule::Phase;
use vstd::arithmetic::div_mod::lemma_fundamental_div_mod_converse;
use vstd::prelude::*;

verus! {

/// Row `r` of a matrix in 8-bit blocks times the activations: weight times activation,
/// times the scales of the blocks of 32 that both stand in.
pub open spec fn row_product<S: Scalar>(
    v: spec_fn(S) -> int,
    w: Q8Mat<S>,
    r: int,
    x: Seq<i8>,
    xs: Seq<S>,
) -> int {
    let nb = w.cols as int / 32;
    sum(
        32 * nb,
        |j: int| w.q@[r * w.cols + j] * x[j] * (v(w.s@[r * nb + j / 32]) * v(xs[j / 32])),
    )
}

/// Row `r` of a matrix of four-bit weights with a power of two for each block of 32,
/// times the activations from place `at` on, with the scales of their blocks.
pub open spec fn mx_product<S: Scalar>(
    v: spec_fn(S) -> int,
    raw: Seq<u8>,
    nb: int,
    r: int,
    x: Seq<i8>,
    at: int,
    xs: Seq<S>,
    sat: int,
    pow: Seq<S>,
) -> int {
    sum(
        32 * nb,
        |j: int| v(mx_weight(raw, nb, r, j, pow)) * v(xs[sat + j / 32]) * x[at + j],
    )
}

/// Products that are added one after another come to what they started from plus the
/// inner product of the two runs.
pub proof fn products_are_an_inner_product<S: Scalar>(
    v: spec_fn(S) -> int,
    m: int,
    acc: S,
    w: Seq<S>,
    wat: int,
    x: Seq<S>,
    xat: int,
    n: int,
)
    requires
        is_exact(v, m),
        0 <= n,
    ensures
        congruent(
            v(products(acc, w, wat, x, xat, n)),
            v(acc) + sum(n, |j: int| v(w[wat + j]) * v(x[xat + j])),
            m,
        ),
    decreases n,
{
    let f = |j: int| v(w[wat + j]) * v(x[xat + j]);
    if n > 0 {
        products_are_an_inner_product(v, m, acc, w, wat, x, xat, n - 1);
        lemma_sum_same(n - 1, |j: int| v(w[wat + j]) * v(x[xat + j]), f);
        let before = products(acc, w, wat, x, xat, n - 1);
        let now = products(acc, w, wat, x, xat, n);
        let (a, b) = (w[wat + n - 1], x[xat + n - 1]);
        assert(w[wat + (n - 1)] == a && x[xat + (n - 1)] == b);
        assert(f(n - 1) == v(a) * v(b));
        assert(now == before.mul_plus_spec(a, b));
        let s = v(acc) + sum(n - 1, f);
        lemma_congruent_same(v(a) * v(b), m);
        lemma_congruent_plus(v(before), s, v(a) * v(b), v(a) * v(b), m);
        lemma_congruent_through(v(now), v(before) + v(a) * v(b), s + v(a) * v(b), m);
    } else {
        lemma_congruent_same(v(acc), m);
    }
}

/// A row of a matrix in 8-bit blocks has the value of its scaled weights, whichever way
/// its blocks are added up.
pub proof fn row_value_is_the_product<S: Scalar>(
    v: spec_fn(S) -> int,
    m: int,
    w: Q8Mat<S>,
    r: int,
    x: Seq<i8>,
    xs: Seq<S>,
    chain: Chain,
)
    requires
        is_exact(v, m),
    ensures
        congruent(v(w.row_value(r, x, xs, chain)), row_product(v, w, r, x, xs), m),
{
    let nb = w.cols as int / 32;
    match chain {
        Chain::Single => {
            q8_row_is_scaled_dot(v, m, w.q@, r * w.cols, w.s@, r * nb, x, xs, nb);
        },
        Chain::Split => {
            q8_split_row_is_scaled_dot(v, m, w.q@, r * w.cols, w.s@, r * nb, x, xs, nb);
        },
    }
    lemma_sum_same(
        32 * nb,
        q8_column(v, w.q@, r * w.cols, w.s@, r * nb, x, xs),
        |j: int| w.q@[r * w.cols + j] * x[j] * (v(w.s@[r * nb + j / 32]) * v(xs[j / 32])),
    );
}

/// A number plus another that is known.
pub proof fn lemma_plus<S: Scalar>(v: spec_fn(S) -> int, m: int, a: S, p: int, b: S, q: int)
    requires
        is_exact(v, m),
        congruent(v(a), p, m),
        congruent(v(b), q, m),
    ensures
        congruent(v(a.plus_spec(b)), p + q, m),
{
    lemma_congruent_plus(v(a), p, v(b), q, m);
    lemma_congruent_through(v(a.plus_spec(b)), v(a) + v(b), p + q, m);
}

/// An item of the attention inputs is one row of the queries, the keys or the values,
/// in this order, times the whole of the input, plus the bias of the row.
pub proof fn qkv_item_is_its_row<S: Analytic>(
    v: spec_fn(S) -> int,
    m: int,
    model: Model<S>,
    c: Cfg,
    blob: Seq<u8>,
    layer: int,
    t: Turn<S>,
    b: Shared<S>,
    it: int,
    out: Seq<Piece<S>>,
)
    requires
        is_exact(v, m),
        model.is_written(c, blob, Phase::Qkv, layer, t, b, it, out),
    ensures
        out.len() == 1 && out[0] is Reals && out[0]->Reals_0@.len() == 1,
        ({
            let y = v(out[0]->Reals_0@[0]);
            let l = model.layers@[layer];
            let (nq, nk) = (c.nh * c.hd, c.nkv * c.hd);
            let (x, xs) = (b.levels@, b.scales@);
            &&& it < nq ==> congruent(
                y,
                row_product(v, l.wq, it, x, xs) + v(l.bq@[it]),
                m,
            )
            &&& nq <= it < nq + nk ==> congruent(
                y,
                row_product(v, l.wk, it - nq, x, xs) + v(l.bk@[it - nq]),
                m,
            )
            &&& nq + nk <= it && 0 <= nk ==> congruent(
                y,
                row_product(v, l.wv, it - nq - nk, x, xs) + v(l.bv@[it - nq - nk]),
                m,
            )
        }),
{
    let l = model.layers@[layer];
    let (nq, nk) = (c.nh * c.hd, c.nkv * c.hd);
    let (x, xs) = (b.levels@, b.scales@);
    let (w, bias, r) = if it < nq {
        (l.wq, l.bq@, it)
    } else if it < nq + nk {
        (l.wk, l.bk@, it - nq)
    } else {
        (l.wv, l.bv@, it - nq - nk)
    };
    let row = w.row_value(r, x, xs, model.chain);
    row_value_is_the_product(v, m, w, r, x, xs, model.chain);
    lemma_congruent_same(v(bias[r]), m);
    lemma_plus(v, m, row, row_product(v, w, r, x, xs), bias[r], v(bias[r]));
    assert(out[0]->Reals_0@ =~= seq![row.plus_spec(bias[r])]);
}

/// An item of the attention output adds its row of the output projection, with its
/// bias, to its number of the stream.
pub proof fn project_item_adds_its_row<S: Analytic>(
    v: spec_fn(S) -> int,
    m: int,
    model: Model<S>,
    c: Cfg,
    blob: Seq<u8>,
    layer: int,
    t: Turn<S>,
    b: Shared<S>,
    it: int,
    out: Seq<Piece<S>>,
)
    requires
        is_exact(v, m),
        model.is_written(c, blob, Phase::Project, layer, t, b, it, out),
    ensures
        out.len() == 1 && out[0] is Reals && out[0]->Reals_0@.len() == 1,
        ({
            let l = model.layers@[layer];
            congruent(
                v(out[0]->Reals_0@[0]),
                v(b.own@[0]) + (row_product(v, l.wo, it, b.mixed_levels@, b.mixed_scales@) + v(
                    l.bo@[it],
                )),
                m,
            )
        }),
{
    let l = model.layers@[layer];
    let (x, xs) = (b.mixed_levels@, b.mixed_scales@);
    let row = l.wo.row_value(it, x, xs, model.chain);
    let p = row_product(v, l.wo, it, x, xs);
    row_value_is_the_product(v, m, l.wo, it, x, xs, model.chain);
    lemma_congruent_same(v(l.bo@[it]), m);
    lemma_congruent_same(v(b.own@[0]), m);
    lemma_plus(v, m, row, p, l.bo@[it], v(l.bo@[it]));
    lemma_plus(
        v,
        m,
        b.own@[0],
        v(b.own@[0]),
        row.plus_spec(l.bo@[it]),
        p + v(l.bo@[it]),
    );
}

/// An item of the router is the inner product of the expert's row and the whole of the
/// input, plus the expert's bias.
pub proof fn route_item_is_its_row<S: Analytic>(
    v: spec_fn(S) -> int,
    m: int,
    model: Model<S>,
    c: Cfg,
    blob: Seq<u8>,
    layer: int,
    t: Turn<S>,
    b: Shared<S>,
    it: int,
    out: Seq<Piece<S>>,
)
    requires
        is_exact(v, m),
        model.is_written(c, blob, Phase::Route, layer, t, b, it, out),
    ensures
        out.len() == 1 && out[0] is Reals && out[0]->Reals_0@.len() == 1,
        ({
            let l = model.layers@[layer];
            congruent(
                v(out[0]->Reals_0@[0]),
                v(l.ginp_b@[it]) + sum(
                    c.d as int,
                    |j: int| v(l.ginp@[it * c.d + j]) * v(b.normed@[j]),
                ),
                m,
            )
        }),
{
    let l = model.layers@[layer];
    products_are_an_inner_product(
        v,
        m,
        l.ginp_b@[it],
        l.ginp@,
        it * c.d,
        b.normed@,
        0,
        c.d as int,
    );
    lemma_sum_same(
        c.d as int,
        |j: int| v(l.ginp@[it * c.d + j]) * v(b.normed@[0 + j]),
        |j: int| v(l.ginp@[it * c.d + j]) * v(b.normed@[j]),
    );
}

/// An item of the output is its row of the output weights times the whole of the input.
pub proof fn head_item_is_its_row<S: Analytic>(
    v: spec_fn(S) -> int,
    m: int,
    model: Model<S>,
    c: Cfg,
    blob: Seq<u8>,
    layer: int,
    t: Turn<S>,
    b: Shared<S>,
    it: int,
    out: Seq<Piece<S>>,
)
    requires
        is_exact(v, m),
        model.is_written(c, blob, Phase::Head, layer, t, b, it, out),
    ensures
        out.len() == 1 && out[0] is Reals && out[0]->Reals_0@.len() == 1,
        congruent(
            v(out[0]->Reals_0@[0]),
            row_product(v, model.head, it, b.levels@, b.scales@),
            m,
        ),
{
    row_value_is_the_product(v, m, model.head, it, b.levels@, b.scales@, model.chain);
}

/// A row of a repacked quad times activations that stand at a place of longer ones.
pub proof fn lemma_quad_row<S: Scalar>(
    v: spec_fn(S) -> int,
    m: int,
    quads: QuadMx,
    raw: Seq<u8>,
    rows: int,
    nb: int,
    q: int,
    i: int,
    x: Seq<i8>,
    at: int,
    xs: Seq<S>,
    sat: int,
    pow: Seq<S>,
)
    requires
        is_exact(v, m),
        quads.of(raw, rows, nb),
        0 <= q < rows / 4,
        0 <= i < 4,
        0 <= nb,
        0 <= at && at + 32 * nb <= x.len(),
        0 <= sat && sat + nb <= xs.len(),
    ensures
        congruent(
            v(
                quad_value(
                    quads.nib@,
                    quads.exps@,
                    nb,
                    q,
                    i,
                    x.subrange(at, at + 32 * nb),
                    xs.subrange(sat, sat + nb),
                    pow,
                    nb,
                ),
            ),
            mx_product(v, raw, nb, 4 * q + i, x, at, xs, sat, pow),
            m,
        ),
{
    let (y, ys) = (x.subrange(at, at + 32 * nb), xs.subrange(sat, sat + nb));
    quad_row_is_dequantized_dot(v, m, quads, raw, rows, nb, q, i, y, ys, pow);
    let f = |j: int| v(mx_weight(raw, nb, 4 * q + i, j, pow)) * v(ys[j / 32]) * y[j];
    let g = |j: int| v(mx_weight(raw, nb, 4 * q + i, j, pow)) * v(xs[sat + j / 32]) * x[at + j];
    assert forall|j: int| 0 <= j < 32 * nb implies #[trigger] f(j) == g(j) by {
        assert(ys[j / 32] == xs[sat + j / 32]);
        assert(y[j] == x[at + j]);
    }
    lemma_sum_same(32 * nb, f, g);
}

/// An item of the expert inputs is four rows of the gating or of the up projection of a
/// chosen expert: for each chosen expert in turn the gating rows come first. Each row is
/// multiplied with the whole of the input, and its bias is added; `raw` are the weights
/// of both projections before they were repacked.
#[verifier::rlimit(40)]
pub proof fn gate_up_item_is_its_rows<S: Analytic>(
    v: spec_fn(S) -> int,
    m: int,
    model: Model<S>,
    c: Cfg,
    blob: Seq<u8>,
    layer: int,
    t: Turn<S>,
    b: Shared<S>,
    slot: int,
    gate: bool,
    g: int,
    out: Seq<Piece<S>>,
    raw: Seq<u8>,
)
    requires
        is_exact(v, m),
        c.d % 32 == 0,
        0 <= slot < t.top@.len(),
        0 <= g < c.d as int / 4,
        t.top@[slot] < c.ne,
        b.levels@.len() == c.d && b.scales@.len() == c.d / 32,
        (if gate {
            model.layers@[layer].gate
        } else {
            model.layers@[layer].up
        }).of(raw, c.ne * c.d, c.d as int / 32),
        model.is_written(
            c,
            blob,
            Phase::GateUp,
            layer,
            t,
            b,
            slot * (2 * (c.d as int / 4)) + (if gate {
                g
            } else {
                c.d as int / 4 + g
            }),
            out,
        ),
    ensures
        out.len() == 1 && out[0] is Reals && out[0]->Reals_0@.len() == 4,
        forall|i: int|
            0 <= i < 4 ==> ({
                let l = model.layers@[layer];
                let row = t.top@[slot] * c.d + 4 * g + i;
                congruent(
                    v(#[trigger] out[0]->Reals_0@[i]),
                    mx_product(
                        v,
                        raw,
                        c.d as int / 32,
                        row,
                        b.levels@,
                        0,
                        b.scales@,
                        0,
                        model.pow@,
                    ) + v(
                        if gate {
                            l.gate_b@[row]
                        } else {
                            l.up_b@[row]
                        },
                    ),
                    m,
                )
            }),
{
    let l = model.layers@[layer];
    let (dq, nb) = (c.d as int / 4, c.d as int / 32);
    let rem = if gate {
        g
    } else {
        dq + g
    };
    let it = slot * (2 * dq) + rem;
    lemma_fundamental_div_mod_converse(it, 2 * dq, slot, rem);
    assert(it / (2 * dq) == slot && it % (2 * dq) == rem);
    let e = t.top@[slot] as int;
    let quad = e * dq + g;
    let (quads, bias) = if gate {
        (l.gate, l.gate_b@)
    } else {
        (l.up, l.up_b@)
    };
    let (x, xs) = (b.levels@, b.scales@);
    lemma_quad_rows(e, c.ne as int, c.d as int, g);
    assert(x.subrange(0, 0 + 32 * nb) =~= x);
    assert(xs.subrange(0, 0 + nb) =~= xs);
    assert forall|i: int| 0 <= i < 4 implies ({
        let row = t.top@[slot] * c.d + 4 * g + i;
        congruent(
            v(#[trigger] out[0]->Reals_0@[i]),
            mx_product(v, raw, nb, row, x, 0, xs, 0, model.pow@) + v(bias[row]),
            m,
        )
    }) by {
        let row = e * c.d + 4 * g + i;
        assert(4 * quad + i == row);
        lemma_quad_row(v, m, quads, raw, c.ne * c.d, nb, quad, i, x, 0, xs, 0, model.pow@);
        let value = quad_value(quads.nib@, quads.exps@, nb, quad, i, x, xs, model.pow@, nb);
        assert(out[0]->Reals_0@[i] == value.plus_spec(bias[row]));
        lemma_congruent_same(v(bias[row]), m);
        lemma_plus(
            v,
            m,
            value,
            mx_product(v, raw, nb, row, x, 0, xs, 0, model.pow@),
            bias[row],
            v(bias[row]),
        );
    }
}

/// Where the rows of a quad of an expert stand among the rows of all experts.
pub proof fn lemma_quad_rows(e: int, ne: int, d: int, g: int)
    requires
        0 <= e < ne,
        0 <= d,
        d % 4 == 0,
        0 <= g < d / 4,
    ensures
        4 * (e * (d / 4) + g) == e * d + 4 * g,
        0 <= e * (d / 4) + g < (ne * d) / 4,
{
    let dq = d / 4;
    assert(d == 4 * dq);
    assert(4 * (e * dq + g) == e * (4 * dq) + 4 * g) by (nonlinear_arith);
    assert(0 <= e * dq) by (nonlinear_arith)
        requires
            0 <= e,
            0 <= dq,
    ;
    assert(ne * d == 4 * (ne * dq)) by (nonlinear_arith)
        requires
            d == 4 * dq,
    ;
    assert(e * dq + dq <= ne * dq) by (nonlinear_arith)
        requires
            e + 1 <= ne,
            0 <= dq,
    ;
}

/// What the first `n` chosen experts add to a row of the stream: each its weight times
/// its row, which is multiplied with its own hidden layer, and its bias.
pub open spec fn experts_add<S: Scalar>(
    v: spec_fn(S) -> int,
    l: Layer<S>,
    c: Cfg,
    r: int,
    top: Seq<usize>,
    weights: Seq<S>,
    h: Seq<i8>,
    hs: Seq<S>,
    pow: Seq<S>,
    raw: Seq<u8>,
    n: int,
) -> int {
    let nb = c.d as int / 32;
    sum(
        n,
        |k: int|
            v(weights[k]) * (mx_product(
                v,
                raw,
                nb,
                top[k] * c.d + r,
                h,
                k * c.d,
                hs,
                k * nb,
                pow,
            ) + v(l.down_b@[top[k] * c.d + r])),
    )
}

#[verifier::rlimit(40)]
proof fn lemma_stream<S: Scalar>(
    v: spec_fn(S) -> int,
    m: int,
    l: Layer<S>,
    c: Cfg,
    quad: int,
    i: int,
    x: S,
    top: Seq<usize>,
    weights: Seq<S>,
    h: Seq<i8>,
    hs: Seq<S>,
    pow: Seq<S>,
    raw: Seq<u8>,
    n: int,
)
    requires
        is_exact(v, m),
        c.d % 32 == 0,
        0 <= quad < c.d as int / 4,
        0 <= i < 4,
        0 <= n <= top.len(),
        forall|k: int| 0 <= k < n ==> #[trigger] top[k] < c.ne,
        h.len() == top.len() * c.d,
        hs.len() == top.len() * (c.d as int / 32),
        l.down.of(raw, c.ne * c.d, c.d as int / 32),
    ensures
        congruent(
            v(l.stream_value(c, quad, i, x, top, weights, h, hs, pow, n)),
            v(x) + experts_add(v, l, c, 4 * quad + i, top, weights, h, hs, pow, raw, n),
            m,
        ),
    decreases n,
{
    let nb = c.d as int / 32;
    let r = 4 * quad + i;
    let f = |k: int|
        v(weights[k]) * (mx_product(v, raw, nb, top[k] * c.d + r, h, k * c.d, hs, k * nb, pow) + v(
            l.down_b@[top[k] * c.d + r],
        ));
    if n > 0 {
        let k: int = n - 1;
        lemma_stream(v, m, l, c, quad, i, x, top, weights, h, hs, pow, raw, k);
        let before = l.stream_value(c, quad, i, x, top, weights, h, hs, pow, k);
        let e = top[k] as int;
        let row = e * c.d + r;
        lemma_quad_rows(e, c.ne as int, c.d as int, quad);
        let q = e * (c.d as int / 4) + quad;
        assert(4 * q + i == row);
        assert(32 * nb == c.d);
        lemma_in_runs(k, top.len() as int, c.d as int);
        lemma_in_runs(k, top.len() as int, nb);
        lemma_quad_row(
            v,
            m,
            l.down,
            raw,
            c.ne * c.d,
            nb,
            q,
            i,
            h,
            k * c.d,
            hs,
            k * nb,
            pow,
        );
        let value = quad_value(
            l.down.nib@,
            l.down.exps@,
            nb,
            q,
            i,
            h.subrange(k * c.d, k * c.d + c.d),
            hs.subrange(k * nb, k * nb + nb),
            pow,
            nb,
        );
        let p = mx_product(v, raw, nb, row, h, k * c.d, hs, k * nb, pow);
        let bias = l.down_b@[row];
        lemma_congruent_same(v(bias), m);
        lemma_plus(v, m, value, p, bias, v(bias));
        let down = value.plus_spec(bias);
        let w = weights[k];
        lemma_congruent_same(v(w), m);
        lemma_congruent_times(v(w), v(w), v(down), p + v(bias), m);
        let now = before.mul_plus_spec(w, down);
        assert(now == l.stream_value(c, quad, i, x, top, weights, h, hs, pow, n));
        let sofar = v(x) + sum(k, f);
        lemma_congruent_plus(v(before), sofar, v(w) * v(down), v(w) * (p + v(bias)), m);
        lemma_congruent_through(
            v(now),
            v(before) + v(w) * v(down),
            sofar + v(w) * (p + v(bias)),
            m,
        );
        assert(f(k) == v(w) * (p + v(bias)));
        assert(sum(n, f) == sum(k, f) + f(k));
    } else {
        lemma_congruent_same(v(x), m);
    }
}

/// One of `n` runs of `len` places lies inside of them.
pub proof fn lemma_in_runs(k: int, n: int, len: int)
    requires
        0 <= k < n,
        0 <= len,
    ensures
        0 <= k * len,
        k * len + len <= n * len,
{
    assert(0 <= k * len) by (nonlinear_arith)
        requires
            0 <= k,
            0 <= len,
    ;
    assert(k * len + len <= n * len) by (nonlinear_arith)
        requires
            k + 1 <= n,
            0 <= len,
    ;
}

/// An item of the expert outputs adds to four numbers of the stream, for every chosen
/// expert once, the weight of the expert times the expert's row, which is multiplied
/// with the expert's own hidden layer, and its bias.
pub proof fn down_item_adds_all_experts<S: Analytic>(
    v: spec_fn(S) -> int,
    m: int,
    model: Model<S>,
    c: Cfg,
    blob: Seq<u8>,
    layer: int,
    t: Turn<S>,
    b: Shared<S>,
    it: int,
    out: Seq<Piece<S>>,
    raw: Seq<u8>,
)
    requires
        is_exact(v, m),
        c.d % 32 == 0,
        0 <= it < c.d as int / 4,
        t.top@.len() == c.topk,
        forall|k: int| 0 <= k < c.topk ==> #[trigger] t.top@[k] < c.ne,
        b.hidden_levels@.len() == c.topk * c.d,
        b.hidden_scales@.len() == c.topk * (c.d as int / 32),
        model.layers@[layer].down.of(raw, c.ne * c.d, c.d as int / 32),
        model.is_written(c, blob, Phase::Down, layer, t, b, it, out),
    ensures
        out.len() == 1 && out[0] is Reals && out[0]->Reals_0@.len() == 4,
        forall|i: int|
            0 <= i < 4 ==> congruent(
                v(#[trigger] out[0]->Reals_0@[i]),
                v(b.own@[i]) + experts_add(
                    v,
                    model.layers@[layer],
                    c,
                    4 * it + i,
                    t.top@,
                    t.weights@,
                    b.hidden_levels@,
                    b.hidden_scales@,
                    model.pow@,
                    raw,
                    c.topk as int,
                ),
                m,
            ),
{
    let l = model.layers@[layer];
    assert forall|i: int| 0 <= i < 4 implies congruent(
        v(#[trigger] out[0]->Reals_0@[i]),
        v(b.own@[i]) + experts_add(
            v,
            l,
            c,
            4 * it + i,
            t.top@,
            t.weights@,
            b.hidden_levels@,
            b.hidden_scales@,
            model.pow@,
            raw,
            c.topk as int,
        ),
        m,
    ) by {
        lemma_stream(
            v,
            m,
            l,
            c,
            it,
            i,
            b.own@[i],
            t.top@,
            t.weights@,
            b.hidden_levels@,
            b.hidden_scales@,
            model.pow@,
            raw,
            c.topk as int,
        );
    }
}

} // verus!
