//! A layer of the model with an attention window: its weights, and what each work
//! item of its forward pass computes.
use crate::config::{product, Cfg};
use crate::dense::{add_products, products};
use crate::lanes::Chain;
use crate::mxfp4::{dot4_mx_i8, quad_value, QuadMx};
use crate::q8::{rows_are_held, Q8Mat};
use crate::routing::{experts_below, gate_up_item, gate_up_of, projected, qkv_row, Projection};
use crate::scalar::Scalar;
use vstd::arithmetic::mul::{lemma_mul_inequality, lemma_mul_is_distributive_add_other_way};
use vstd::prelude::*;
use vstd::slice::slice_subrange;

verus! {

/// The weights of a layer. The projections of the attention are in 8-bit blocks,
/// those of the experts in quads of four-bit floats, stacked expert by expert.
pub struct Layer<S> {
    pub attn_norm: Vec<S>,
    pub ffn_norm: Vec<S>,
    pub wq: Q8Mat<S>,
    pub wk: Q8Mat<S>,
    pub wv: Q8Mat<S>,
    pub wo: Q8Mat<S>,
    pub bq: Vec<S>,
    pub bk: Vec<S>,
    pub bv: Vec<S>,
    pub bo: Vec<S>,
    pub sinks: Vec<S>,
    pub ginp: Vec<S>,
    pub ginp_b: Vec<S>,
    pub gate: QuadMx,
    pub up: QuadMx,
    pub down: QuadMx,
    pub gate_b: Vec<S>,
    pub up_b: Vec<S>,
    pub down_b: Vec<S>,
}

/// A matrix of quads has room for all rows of all experts.
pub open spec fn quads_fit(m: QuadMx, c: Cfg) -> bool {
    let quads = c.ne * (c.d as int / 4);
    &&& quads * (c.d as int / 32) * 64 <= m.nib@.len()
    &&& quads * (c.d as int / 32) * 4 <= m.exps@.len()
}

/// Quad `quad` of all experts lies in the matrix.
proof fn lemma_quad_fits(m: QuadMx, c: Cfg, quad: int)
    requires
        quads_fit(m, c),
        0 <= quad < c.ne * (c.d as int / 4),
    ensures
        (quad + 1) * (c.d as int / 32) * 64 <= m.nib@.len(),
        (quad + 1) * (c.d as int / 32) * 4 <= m.exps@.len(),
{
    lemma_mul_inequality(quad + 1, c.ne * (c.d as int / 4), c.d as int / 32);
}

/// Quad `quad` of expert `e` is a quad of all experts.
pub proof fn lemma_expert_quad(c: Cfg, e: int, quad: int)
    requires
        0 <= e < c.ne,
        0 <= quad < c.d as int / 4,
        c.d % 4 == 0,
        c.ne * c.d <= usize::MAX,
    ensures
        0 <= e * (c.d as int / 4),
        e * (c.d as int / 4) + quad < c.ne * (c.d as int / 4),
        4 * (e * (c.d as int / 4) + quad) + 4 <= c.ne * c.d,
{
    let dq = c.d as int / 4;
    lemma_mul_inequality(e + 1, c.ne as int, dq);
    lemma_mul_is_distributive_add_other_way(dq, e, 1);
    assert(0 <= e * dq) by (nonlinear_arith)
        requires
            0 <= e,
            0 <= dq,
    ;
    assert(c.ne * c.d == 4 * (c.ne * dq)) by (nonlinear_arith)
        requires
            c.d == 4 * dq,
    ;
}

/// Whether a matrix of quads has room for all rows of all experts.
fn quads_fit_in(m: &QuadMx, c: &Cfg) -> (r: bool)
    requires
        c.is_sound(),
    ensures
        r == quads_fit(*m, *c),
{
    proof {
        let dq = c.d as int / 4;
        assert(0 <= c.ne * dq <= c.ne * c.d) by (nonlinear_arith)
            requires
                0 <= dq <= c.d,
        ;
    }
    let quads: usize = c.ne * (c.d / 4);
    let all: u128 = product(quads, c.d / 32);
    all <= (m.nib.len() / 64) as u128 && all <= (m.exps.len() / 4) as u128
}

/// Whether a matrix in 8-bit blocks has `rows` rows of `cols` columns.
fn matrix_fits<S: Scalar>(m: &Q8Mat<S>, rows: usize, cols: usize) -> (r: bool)
    ensures
        r == (m.cols == cols && m.has_rows(rows as int)),
{
    m.cols == cols && product(rows, cols) <= m.q.len() as u128 && product(rows, cols / 32)
        <= m.s.len() as u128
}

impl<S: Scalar> Layer<S> {
    /// The weights have the sizes of the configuration.
    pub open spec fn fits(&self, c: Cfg) -> bool {
        &&& self.wq.cols == c.d && self.wq.has_rows(c.nh * c.hd)
        &&& self.wk.cols == c.d && self.wk.has_rows(c.nkv * c.hd)
        &&& self.wv.cols == c.d && self.wv.has_rows(c.nkv * c.hd)
        &&& self.wo.cols == c.nh * c.hd && self.wo.has_rows(c.d as int)
        &&& self.attn_norm@.len() >= c.d && self.ffn_norm@.len() >= c.d
        &&& self.bq@.len() >= c.nh * c.hd
        &&& self.bk@.len() >= c.nkv * c.hd
        &&& self.bv@.len() >= c.nkv * c.hd
        &&& self.bo@.len() >= c.d
        &&& self.sinks@.len() >= c.nh
        &&& self.ginp@.len() >= c.ne * c.d
        &&& self.ginp_b@.len() >= c.ne
        &&& quads_fit(self.gate, c) && quads_fit(self.up, c) && quads_fit(self.down, c)
        &&& self.gate_b@.len() >= c.ne * c.d
        &&& self.up_b@.len() >= c.ne * c.d
        &&& self.down_b@.len() >= c.ne * c.d
    }

    /// Whether the weights have the sizes of the configuration.
    pub fn fit(&self, c: &Cfg) -> (r: bool)
        requires
            c.is_sound(),
        ensures
            r == self.fits(*c),
    {
        let (queries, keys): (usize, usize) = (c.nh * c.hd, c.nkv * c.hd);
        let rows: usize = c.ne * c.d;
        let attention: bool = matrix_fits(&self.wq, queries, c.d) && matrix_fits(
            &self.wk,
            keys,
            c.d,
        ) && matrix_fits(&self.wv, keys, c.d) && matrix_fits(&self.wo, c.d, queries)
            && self.bq.len() >= queries && self.bk.len() >= keys && self.bv.len() >= keys
            && self.bo.len() >= c.d && self.sinks.len() >= c.nh;
        let experts: bool = self.ginp.len() >= rows && self.ginp_b.len() >= c.ne && quads_fit_in(
            &self.gate,
            c,
        ) && quads_fit_in(&self.up, c) && quads_fit_in(&self.down, c) && self.gate_b.len() >= rows
            && self.up_b.len() >= rows && self.down_b.len() >= rows;
        attention && experts && self.attn_norm.len() >= c.d && self.ffn_norm.len() >= c.d
    }

    /// Row `row` of a projection of the attention input, plus its bias.
    pub open spec fn qkv_value(
        &self,
        p: Projection,
        row: int,
        x: Seq<i8>,
        xs: Seq<S>,
        chain: Chain,
    ) -> S {
        match p {
            Projection::Query => self.wq.row_value(row, x, xs, chain).plus_spec(self.bq@[row]),
            Projection::Key => self.wk.row_value(row, x, xs, chain).plus_spec(self.bk@[row]),
            Projection::Value => self.wv.row_value(row, x, xs, chain).plus_spec(self.bv@[row]),
        }
    }

    /// Row `r` of the queries, keys and values together: the projection, the row
    /// in it, and its value.
    pub fn qkv(&self, c: &Cfg, r: usize, xq: &[i8], xs: &[S], chain: Chain) -> (v: (
        Projection,
        usize,
        S,
    ))
        requires
            c.is_sound(),
            self.fits(*c),
            r < c.nh * c.hd + 2 * c.nkv * c.hd,
            xq.len() >= c.d,
            xs.len() >= c.d / 32,
        ensures
            (v.0, v.1 as int) == projected(r as int, c.nh as int, c.nkv as int, c.hd as int),
            v.2 == self.qkv_value(v.0, v.1 as int, xq@, xs@, chain),
    {
        let (p, row) = qkv_row(r, c.nh, c.nkv, c.hd);
        let (w, b): (&Q8Mat<S>, &Vec<S>) = match p {
            Projection::Query => (&self.wq, &self.bq),
            Projection::Key => (&self.wk, &self.bk),
            Projection::Value => (&self.wv, &self.bv),
        };
        proof {
            let rows = match p {
                Projection::Query => c.nh * c.hd,
                _ => c.nkv * c.hd,
            };
            rows_are_held(*w, rows, row as int);
        }
        (p, row, w.dot(row, xq, xs, chain).plus(b[row]))
    }

    /// The stream's number `r` after the attention: `x` plus the row of the
    /// projection with its bias.
    pub open spec fn projected_value(
        &self,
        r: int,
        x: S,
        a: Seq<i8>,
        s: Seq<S>,
        chain: Chain,
    ) -> S {
        x.plus_spec(self.wo.row_value(r, a, s, chain).plus_spec(self.bo@[r]))
    }

    /// Number `r` of the stream after the attention; it was `x` before.
    pub fn project(&self, c: &Cfg, r: usize, x: S, aq: &[i8], asb: &[S], chain: Chain) -> (v: S)
        requires
            self.fits(*c),
            r < c.d,
            aq.len() >= c.nh * c.hd,
            asb.len() >= (c.nh * c.hd) / 32,
        ensures
            v == self.projected_value(r as int, x, aq@, asb@, chain),
    {
        proof {
            rows_are_held(self.wo, c.d as int, r as int);
        }
        x.plus(self.wo.dot(r, aq, asb, chain).plus(self.bo[r]))
    }

    /// The router's logit of expert `e`.
    pub open spec fn route_value(&self, c: Cfg, e: int, xn: Seq<S>) -> S {
        products(self.ginp_b@[e], self.ginp@, e * c.d, xn, 0, c.d as int)
    }

    /// The router's logit of expert `e`.
    pub fn route(&self, c: &Cfg, e: usize, xn: &[S]) -> (v: S)
        requires
            c.is_sound(),
            self.fits(*c),
            e < c.ne,
            xn.len() >= c.d,
        ensures
            v == self.route_value(*c, e as int, xn@),
    {
        proof {
            lemma_mul_inequality(e + 1, c.ne as int, c.d as int);
            lemma_mul_is_distributive_add_other_way(c.d as int, e as int, 1);
            assert(0 <= e * c.d) by (nonlinear_arith);
        }
        add_products(self.ginp_b[e], self.ginp.as_slice(), e * c.d, xn, 0, c.d)
    }

    /// Row `i` of quad `quad` of the gating or of the up projection, plus its bias.
    pub open spec fn gate_up_value(
        &self,
        c: Cfg,
        gate: bool,
        quad: int,
        i: int,
        x: Seq<i8>,
        xs: Seq<S>,
        pow: Seq<S>,
    ) -> S {
        let nb = c.d as int / 32;
        if gate {
            quad_value(self.gate.nib@, self.gate.exps@, nb, quad, i, x, xs, pow, nb).plus_spec(
                self.gate_b@[4 * quad + i],
            )
        } else {
            quad_value(self.up.nib@, self.up.exps@, nb, quad, i, x, xs, pow, nb).plus_spec(
                self.up_b@[4 * quad + i],
            )
        }
    }

    /// Quad `quad` of the gating or of the up projections of all experts.
    pub fn gate_up_quad(
        &self,
        c: &Cfg,
        gate: bool,
        quad: usize,
        xq: &[i8],
        xs: &[S],
        pow: &[S],
    ) -> (v: [S; 4])
        requires
            c.is_sound(),
            self.fits(*c),
            quad < c.ne * (c.d / 4),
            xq.len() >= c.d,
            xs.len() >= c.d / 32,
            pow.len() == 256,
        ensures
            forall|i: int|
                0 <= i < 4 ==> #[trigger] v@[i] == self.gate_up_value(
                    *c,
                    gate,
                    quad as int,
                    i,
                    xq@,
                    xs@,
                    pow@,
                ),
    {
        let (m, b): (&QuadMx, &Vec<S>) = if gate {
            (&self.gate, &self.gate_b)
        } else {
            (&self.up, &self.up_b)
        };
        proof {
            lemma_quad_fits(*m, *c, quad as int);
            assert(c.ne * c.d == 4 * (c.ne * (c.d as int / 4))) by (nonlinear_arith)
                requires
                    c.d == 4 * (c.d as int / 4),
            ;
        }
        let a: [S; 4] = dot4_mx_i8(
            m.nib.as_slice(),
            m.exps.as_slice(),
            quad,
            xq,
            xs,
            c.d / 32,
            pow,
        );
        with_biases(a, b.as_slice(), 4 * quad)
    }

    /// Item `it` of the gating and up projections of the chosen experts: the place
    /// of its four results, and the results.
    pub fn gate_up(
        &self,
        c: &Cfg,
        it: usize,
        top: &[usize],
        xq: &[i8],
        xs: &[S],
        pow: &[S],
    ) -> (v: (usize, [S; 4]))
        requires
            c.is_sound(),
            self.fits(*c),
            top.len() == c.topk,
            experts_below(top@, c.ne as int),
            it < top.len() * (2 * (c.d / 4)),
            xq.len() >= c.d,
            xs.len() >= c.d / 32,
            pow.len() == 256,
        ensures
            v.0 == 4 * it,
            ({
                let (_, gate, quad) = gate_up_of(it as int, top@, c.d as int / 4);
                forall|i: int|
                    0 <= i < 4 ==> #[trigger] v.1@[i] == self.gate_up_value(
                        *c,
                        gate,
                        quad,
                        i,
                        xq@,
                        xs@,
                        pow@,
                    )
            }),
    {
        let g = gate_up_item(it, top, c.d, c.ne);
        (g.out, self.gate_up_quad(c, g.gate, g.quad, xq, xs, pow))
    }

    /// Row `i` of quad `quad` of the down projections of all experts, plus its
    /// bias.
    pub open spec fn down_value(
        &self,
        c: Cfg,
        quad: int,
        i: int,
        h: Seq<i8>,
        hs: Seq<S>,
        pow: Seq<S>,
    ) -> S {
        let nb = c.d as int / 32;
        quad_value(self.down.nib@, self.down.exps@, nb, quad, i, h, hs, pow, nb).plus_spec(
            self.down_b@[4 * quad + i],
        )
    }

    /// Quad `q` of the down projections of all experts.
    fn down_at(&self, c: &Cfg, q: usize, hq: &[i8], hs: &[S], pow: &[S]) -> (v: [S; 4])
        requires
            c.is_sound(),
            self.fits(*c),
            q < c.ne * (c.d as int / 4),
            4 * q + 4 <= c.ne * c.d,
            hq.len() >= c.d,
            hs.len() >= c.d / 32,
            pow.len() == 256,
        ensures
            forall|i: int|
                0 <= i < 4 ==> #[trigger] v@[i] == self.down_value(
                    *c,
                    q as int,
                    i,
                    hq@,
                    hs@,
                    pow@,
                ),
    {
        proof {
            lemma_quad_fits(self.down, *c, q as int);
        }
        let a: [S; 4] = dot4_mx_i8(
            self.down.nib.as_slice(),
            self.down.exps.as_slice(),
            q,
            hq,
            hs,
            c.d / 32,
            pow,
        );
        with_biases(a, self.down_b.as_slice(), 4 * q)
    }

    /// Quad `quad` of the down projection of expert `e`.
    pub fn down_quad(&self, c: &Cfg, e: usize, quad: usize, hq: &[i8], hs: &[S], pow: &[S]) -> (v: [S;
        4])
        requires
            c.is_sound(),
            self.fits(*c),
            e < c.ne,
            quad < c.d / 4,
            hq.len() >= c.d,
            hs.len() >= c.d / 32,
            pow.len() == 256,
        ensures
            forall|i: int|
                0 <= i < 4 ==> #[trigger] v@[i] == self.down_value(
                    *c,
                    e * (c.d as int / 4) + quad,
                    i,
                    hq@,
                    hs@,
                    pow@,
                ),
    {
        proof {
            lemma_expert_quad(*c, e as int, quad as int);
        }
        self.down_at(c, e * (c.d / 4) + quad, hq, hs, pow)
    }

    /// The stream's number of row `i` of quad `quad` after the first `n` of the
    /// chosen experts: each adds its weight times its row. The hidden layers stand
    /// one after another in `h`, and their scales in `hs`.
    pub open spec fn stream_value(
        &self,
        c: Cfg,
        quad: int,
        i: int,
        x: S,
        top: Seq<usize>,
        weights: Seq<S>,
        h: Seq<i8>,
        hs: Seq<S>,
        pow: Seq<S>,
        n: int,
    ) -> S
        decreases n,
    {
        let nb = c.d as int / 32;
        if n <= 0 {
            x
        } else {
            self.stream_value(c, quad, i, x, top, weights, h, hs, pow, n - 1).mul_plus_spec(
                weights[n - 1],
                self.down_value(
                    c,
                    top[n - 1] * (c.d as int / 4) + quad,
                    i,
                    h.subrange((n - 1) * c.d, (n - 1) * c.d + c.d),
                    hs.subrange((n - 1) * nb, (n - 1) * nb + nb),
                    pow,
                ),
            )
        }
    }

    /// The four numbers of the stream that quad `quad` of the down projections
    /// adds to, after all chosen experts; they were `x` before.
    pub fn down(
        &self,
        c: &Cfg,
        quad: usize,
        x: [S; 4],
        top: &[usize],
        weights: &[S],
        hq: &[i8],
        hs: &[S],
        pow: &[S],
    ) -> (v: [S; 4])
        requires
            c.is_sound(),
            self.fits(*c),
            quad < c.d / 4,
            top.len() == c.topk,
            weights.len() == c.topk,
            experts_below(top@, c.ne as int),
            hq.len() >= c.topk * c.d,
            hs.len() >= c.topk * (c.d as int / 32),
            pow.len() == 256,
        ensures
            forall|i: int|
                0 <= i < 4 ==> #[trigger] v@[i] == self.stream_value(
                    *c,
                    quad as int,
                    i,
                    x@[i],
                    top@,
                    weights@,
                    hq@,
                    hs@,
                    pow@,
                    c.topk as int,
                ),
    {
        let nb: usize = c.d / 32;
        let mut s: [S; 4] = x;
        for n in 0..c.topk
            invariant
                c.is_sound(),
                self.fits(*c),
                nb == c.d / 32,
                quad < c.d / 4,
                top.len() == c.topk,
                weights.len() == c.topk,
                experts_below(top@, c.ne as int),
                hq.len() >= c.topk * c.d,
                hs.len() >= c.topk * nb,
                pow.len() == 256,
                forall|i: int|
                    0 <= i < 4 ==> #[trigger] s@[i] == self.stream_value(
                        *c,
                        quad as int,
                        i,
                        x@[i],
                        top@,
                        weights@,
                        hq@,
                        hs@,
                        pow@,
                        n as int,
                    ),
        {
            proof {
                lemma_mul_inequality(n + 1, c.topk as int, c.d as int);
                lemma_mul_is_distributive_add_other_way(c.d as int, n as int, 1);
                lemma_mul_inequality(n + 1, c.topk as int, nb as int);
                lemma_mul_is_distributive_add_other_way(nb as int, n as int, 1);
                assert(0 <= n * c.d && 0 <= n * nb) by (nonlinear_arith);
                assert(hq@.len() == hq.len() && hs@.len() == hs.len());
                assert(top@[n as int] < c.ne);
            }
            let h = slice_subrange(hq, n * c.d, n * c.d + c.d);
            let hsc = slice_subrange(hs, n * nb, n * nb + nb);
            let w: S = weights[n];
            let a: [S; 4] = self.down_quad(c, top[n], quad, h, hsc, pow);
            let ghost before = s@;
            s = [
                s[0].mul_plus(w, a[0]),
                s[1].mul_plus(w, a[1]),
                s[2].mul_plus(w, a[2]),
                s[3].mul_plus(w, a[3]),
            ];
            proof {
                assert forall|i: int| 0 <= i < 4 implies #[trigger] s@[i] == self.stream_value(
                    *c,
                    quad as int,
                    i,
                    x@[i],
                    top@,
                    weights@,
                    hq@,
                    hs@,
                    pow@,
                    n + 1,
                ) by {
                    assert(s@[i] == before[i].mul_plus_spec(w, a@[i]));
                }
            }
        }
        s
    }
}

/// Four numbers plus the four biases from place `at` on.
fn with_biases<S: Scalar>(a: [S; 4], b: &[S], at: usize) -> (r: [S; 4])
    requires
        at + 4 <= b.len(),
    ensures
        forall|i: int| 0 <= i < 4 ==> #[trigger] r@[i] == a@[i].plus_spec(b@[at + i]),
{
    [a[0].plus(b[at]), a[1].plus(b[at + 1]), a[2].plus(b[at + 2]), a[3].plus(b[at + 3])]
}

} // verus!
