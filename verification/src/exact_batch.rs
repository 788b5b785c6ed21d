//! What the expert steps of a batch come to where nothing rounds, from the weights
//! themselves: which expert's rows meet which token, and what each token gets.
use crate::analytic::Analytic;
use crate::arith::sum;
use crate::batch::{
    batch_stream, gives_down, gives_gate_up, is_down, is_gate_up, served, DownQuad, GateUpQuad,
};
use crate::config::Cfg;
use crate::exact::{
    congruent, is_exact, lemma_congruent_plus, lemma_congruent_same, lemma_congruent_through,
};
use crate::exact_gptoss::{lemma_plus, lemma_quad_row, lemma_quad_rows, mx_product};
use crate::gptoss::Layer;
use crate::mxfp4::quad_value;
use vstd::arithmetic::div_mod::lemma_fundamental_div_mod_converse;
use vstd::prelude::*;

verus! {

/// An item of the input projections of a batch takes four rows of the gating and of the up
/// projection of one expert, and multiplies them, for each token of the tile that chose the
/// expert, with that token's input: item `a * d + 4 * quad` belongs to the `a`-th of the experts
/// that were chosen. The results go to the slot of the token and of the place that
/// the expert has among its choices. `raw` and `raw_up` are the weights of the two
/// projections before they were repacked.
#[verifier::rlimit(40)]
pub proof fn batch_gate_up_is_its_rows<S: Analytic>(
    v: spec_fn(S) -> int,
    m: int,
    l: Layer<S>,
    c: Cfg,
    a: int,
    quad: int,
    active: Seq<usize>,
    groups: Seq<Vec<(usize, usize)>>,
    tile: (usize, usize),
    xq: Seq<Vec<i8>>,
    xs: Seq<Vec<S>>,
    pow: Seq<S>,
    out: Seq<GateUpQuad<S>>,
    raw: Seq<u8>,
    raw_up: Seq<u8>,
    k: int,
    i: int,
)
    requires
        is_exact(v, m),
        c.d % 32 == 0,
        0 <= a < active.len(),
        active[a] < c.ne,
        0 <= quad < c.d as int / 4,
        l.gate.of(raw, c.ne * c.d, c.d as int / 32),
        l.up.of(raw_up, c.ne * c.d, c.d as int / 32),
        gives_gate_up(
            l,
            c,
            a * c.d + 4 * quad,
            active,
            groups,
            tile,
            xq,
            xs,
            pow,
            out,
        ),
        0 <= k < out.len(),
        0 <= i < 4,
        ({
            let ms = served(
                a * c.d + 4 * quad,
                active,
                groups,
                c.d as int,
                tile.0 as int,
                tile.1 as int,
            );
            let b = ms[k].0 as int;
            xq[b]@.len() == c.d && xs[b]@.len() == c.d as int / 32
        }),
    ensures
        ({
            let ms = served(
                a * c.d + 4 * quad,
                active,
                groups,
                c.d as int,
                tile.0 as int,
                tile.1 as int,
            );
            let (b, place) = (ms[k].0 as int, ms[k].1 as int);
            let row = active[a] * c.d + 4 * quad + i;
            let nb = c.d as int / 32;
            &&& out.len() == ms.len()
            &&& out[k].at == (b * c.topk + place) * 2 * c.d + 4 * quad
            &&& congruent(
                v(out[k].gate@[i]),
                mx_product(v, raw, nb, row, xq[b]@, 0, xs[b]@, 0, pow) + v(l.gate_b@[row]),
                m,
            )
            &&& congruent(
                v(out[k].up@[i]),
                mx_product(v, raw_up, nb, row, xq[b]@, 0, xs[b]@, 0, pow) + v(l.up_b@[row]),
                m,
            )
        }),
{
    let (dq, nb) = (c.d as int / 4, c.d as int / 32);
    let it = a * c.d + 4 * quad;
    lemma_fundamental_div_mod_converse(it, c.d as int, a, 4 * quad);
    let e = active[a] as int;
    let ms = served(it, active, groups, c.d as int, tile.0 as int, tile.1 as int);
    let b = ms[k].0 as int;
    let (x, s) = (xq[b]@, xs[b]@);
    let q = e * dq + quad;
    let row = e * c.d + 4 * quad + i;
    assert(is_gate_up(l, c, e, quad, ms[k], xq, xs, pow, out[k]));
    lemma_quad_rows(e, c.ne as int, c.d as int, quad);
    assert(4 * q + i == row);
    assert(x.subrange(0, 0 + 32 * nb) =~= x);
    assert(s.subrange(0, 0 + nb) =~= s);
    lemma_quad_row(v, m, l.gate, raw, c.ne * c.d, nb, q, i, x, 0, s, 0, pow);
    lemma_quad_row(v, m, l.up, raw_up, c.ne * c.d, nb, q, i, x, 0, s, 0, pow);
    let g = quad_value(l.gate.nib@, l.gate.exps@, nb, q, i, x, s, pow, nb);
    let u = quad_value(l.up.nib@, l.up.exps@, nb, q, i, x, s, pow, nb);
    lemma_congruent_same(v(l.gate_b@[row]), m);
    lemma_congruent_same(v(l.up_b@[row]), m);
    lemma_plus(
        v,
        m,
        g,
        mx_product(v, raw, nb, row, x, 0, s, 0, pow),
        l.gate_b@[row],
        v(l.gate_b@[row]),
    );
    lemma_plus(
        v,
        m,
        u,
        mx_product(v, raw_up, nb, row, x, 0, s, 0, pow),
        l.up_b@[row],
        v(l.up_b@[row]),
    );
    assert(out[k].gate@[i] == l.gate_up_value(c, true, q, i, x, s, pow));
    assert(out[k].up@[i] == l.gate_up_value(c, false, q, i, x, s, pow));
}

/// An item of the output projections of a batch takes four rows of one expert and
/// multiplies them, for each token of the tile that chose the expert, with the hidden layer
/// of the token's slot for it.
#[verifier::rlimit(40)]
pub proof fn batch_down_is_its_rows<S: Analytic>(
    v: spec_fn(S) -> int,
    m: int,
    l: Layer<S>,
    c: Cfg,
    a: int,
    quad: int,
    active: Seq<usize>,
    groups: Seq<Vec<(usize, usize)>>,
    tile: (usize, usize),
    hq: Seq<Vec<i8>>,
    hs: Seq<Vec<S>>,
    pow: Seq<S>,
    out: Seq<DownQuad<S>>,
    raw: Seq<u8>,
    k: int,
    i: int,
)
    requires
        is_exact(v, m),
        c.d % 32 == 0,
        0 <= a < active.len(),
        active[a] < c.ne,
        0 <= quad < c.d as int / 4,
        l.down.of(raw, c.ne * c.d, c.d as int / 32),
        gives_down(
            l,
            c,
            a * c.d + 4 * quad,
            active,
            groups,
            tile,
            hq,
            hs,
            pow,
            out,
        ),
        0 <= k < out.len(),
        0 <= i < 4,
        ({
            let ms = served(
                a * c.d + 4 * quad,
                active,
                groups,
                c.d as int,
                tile.0 as int,
                tile.1 as int,
            );
            let slot = ms[k].0 * c.topk + ms[k].1;
            hq[slot]@.len() == c.d && hs[slot]@.len() == c.d as int / 32
        }),
    ensures
        ({
            let ms = served(
                a * c.d + 4 * quad,
                active,
                groups,
                c.d as int,
                tile.0 as int,
                tile.1 as int,
            );
            let slot = ms[k].0 * c.topk + ms[k].1;
            let row = active[a] * c.d + 4 * quad + i;
            let nb = c.d as int / 32;
            &&& out.len() == ms.len()
            &&& out[k].at == slot * c.d + 4 * quad
            &&& congruent(
                v(out[k].values@[i]),
                mx_product(v, raw, nb, row, hq[slot]@, 0, hs[slot]@, 0, pow) + v(l.down_b@[row]),
                m,
            )
        }),
{
    let (dq, nb) = (c.d as int / 4, c.d as int / 32);
    let it = a * c.d + 4 * quad;
    lemma_fundamental_div_mod_converse(it, c.d as int, a, 4 * quad);
    let e = active[a] as int;
    let ms = served(it, active, groups, c.d as int, tile.0 as int, tile.1 as int);
    let slot = ms[k].0 * c.topk + ms[k].1;
    let (x, s) = (hq[slot]@, hs[slot]@);
    let q = e * dq + quad;
    let row = e * c.d + 4 * quad + i;
    assert(is_down(l, c, e, quad, ms[k], hq, hs, pow, out[k]));
    lemma_quad_rows(e, c.ne as int, c.d as int, quad);
    assert(4 * q + i == row);
    assert(x.subrange(0, 0 + 32 * nb) =~= x);
    assert(s.subrange(0, 0 + nb) =~= s);
    lemma_quad_row(v, m, l.down, raw, c.ne * c.d, nb, q, i, x, 0, s, 0, pow);
    let value = quad_value(l.down.nib@, l.down.exps@, nb, q, i, x, s, pow, nb);
    lemma_congruent_same(v(l.down_b@[row]), m);
    lemma_plus(
        v,
        m,
        value,
        mx_product(v, raw, nb, row, x, 0, s, 0, pow),
        l.down_b@[row],
        v(l.down_b@[row]),
    );
    assert(out[k].values@[i] == l.down_value(c, q, i, x, s, pow));
}

/// What the experts of token `b` add to number `k` of its stream: for each place among its
/// choices the weight of the place times the number of the place's slot.
pub proof fn batch_stream_adds_all_experts<S: Analytic>(
    v: spec_fn(S) -> int,
    m: int,
    x: S,
    weights: Seq<S>,
    ffn: Seq<S>,
    b: int,
    topk: int,
    d: int,
    k: int,
    n: int,
)
    requires
        is_exact(v, m),
        0 <= n,
    ensures
        congruent(
            v(batch_stream(x, weights, ffn, b, topk, d, k, n)),
            v(x) + sum(
                n,
                |p: int| v(weights[b * topk + p]) * v(ffn[(b * topk + p) * d + k]),
            ),
            m,
        ),
    decreases n,
{
    let f = |p: int| v(weights[b * topk + p]) * v(ffn[(b * topk + p) * d + k]);
    if n > 0 {
        let p: int = n - 1;
        batch_stream_adds_all_experts(v, m, x, weights, ffn, b, topk, d, k, p);
        let before = batch_stream(x, weights, ffn, b, topk, d, k, p);
        let now = batch_stream(x, weights, ffn, b, topk, d, k, n);
        let slot = b * topk + p;
        assert(b * topk + n - 1 == slot);
        let (w, y) = (weights[slot], ffn[slot * d + k]);
        assert(now == before.mul_plus_spec(w, y));
        let sofar = v(x) + sum(p, f);
        lemma_congruent_same(v(w) * v(y), m);
        lemma_congruent_plus(v(before), sofar, v(w) * v(y), v(w) * v(y), m);
        lemma_congruent_through(v(now), v(before) + v(w) * v(y), sofar + v(w) * v(y), m);
        assert(f(p) == v(w) * v(y));
        assert(sum(n, f) == sum(p, f) + f(p));
    } else {
        lemma_congruent_same(v(x), m);
    }
}

} // verus!
