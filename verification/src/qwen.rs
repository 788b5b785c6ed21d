//! A layer of the model with normalized heads: its weights, which stay in the
//! weight file, and what each work item of its forward pass computes.
use crate::analytic::Analytic;
use crate::config::Cfg;
use crate::dense::{add_products, normed, products, rope, sum_squares, turned};
use crate::kmat::{rows_are_held, Grain, KMat, TYPE_Q4_K};
use crate::norm::{inverse_of, inverse_rms};
use crate::q4k::{q4k_gu, q4k_gu_value};
use crate::routing::{expert_row, expert_row_of, experts_below, projected, qkv_row, Projection};
use crate::scalar::Scalar;
use vstd::arithmetic::mul::{lemma_mul_inequality, lemma_mul_is_distributive_add_other_way};
use vstd::prelude::*;
use vstd::slice::slice_subrange;

verus! {

/// The weights of a layer. Those of the experts are stacked expert by expert.
pub struct Layer<S> {
    pub attn_norm: Vec<S>,
    pub ffn_norm: Vec<S>,
    pub q_norm: Vec<S>,
    pub k_norm: Vec<S>,
    pub wq: KMat,
    pub wk: KMat,
    pub wv: KMat,
    pub wo: KMat,
    pub gate_inp: Vec<S>,
    pub gate: KMat,
    pub up: KMat,
    pub down: KMat,
}

/// A matrix of `rows` rows and `cols` columns in a weight file of `len` bytes.
pub open spec fn is_matrix(m: KMat, len: int, rows: int, cols: int) -> bool {
    m.wf() && m.cols == cols && m.has_rows(len, rows)
}

impl<S: Scalar> Layer<S> {
    /// The weights have the sizes of the configuration and lie in a weight file of
    /// `len` bytes.
    pub open spec fn fits(&self, c: Cfg, len: int) -> bool {
        &&& self.attn_norm@.len() >= c.d && self.ffn_norm@.len() >= c.d
        &&& self.q_norm@.len() >= c.hd && self.k_norm@.len() >= c.hd
        &&& is_matrix(self.wq, len, c.nh * c.hd, c.d as int)
        &&& is_matrix(self.wk, len, c.nkv * c.hd, c.d as int)
        &&& is_matrix(self.wv, len, c.nkv * c.hd, c.d as int)
        &&& is_matrix(self.wo, len, c.d as int, c.nh * c.hd)
        &&& self.gate_inp@.len() >= c.ne * c.d
        &&& is_matrix(self.gate, len, c.ne * c.ffexp, c.d as int)
        &&& is_matrix(self.up, len, c.ne * c.ffexp, c.d as int)
        &&& is_matrix(self.down, len, c.ne * c.d, c.ffexp as int)
    }

    /// Whether the weights have the sizes of the configuration and lie in a weight
    /// file of `len` bytes.
    pub fn fit(&self, c: &Cfg, len: usize) -> (r: bool)
        requires
            c.is_sound(),
        ensures
            r == self.fits(*c, len as int),
    {
        let (queries, keys): (usize, usize) = (c.nh * c.hd, c.nkv * c.hd);
        let (rows, hidden): (usize, usize) = (c.ne * c.d, c.ne * c.ffexp);
        self.attn_norm.len() >= c.d && self.ffn_norm.len() >= c.d && self.q_norm.len() >= c.hd
            && self.k_norm.len() >= c.hd && self.wq.fits(len, queries, c.d) && self.wk.fits(
            len,
            keys,
            c.d,
        ) && self.wv.fits(len, keys, c.d) && self.wo.fits(len, c.d, queries) && self.gate_inp.len()
            >= rows && self.gate.fits(len, hidden, c.d) && self.up.fits(len, hidden, c.d)
            && self.down.fits(len, rows, c.ffexp)
    }

    /// Row `row` of a projection of the attention input.
    pub open spec fn qkv_value(
        &self,
        blob: Seq<u8>,
        p: Projection,
        row: int,
        x: Seq<i8>,
        xs: Seq<S>,
        xsum: Seq<i32>,
        grain: Grain,
    ) -> S {
        match p {
            Projection::Query => self.wq.row_value(blob, row, x, xs, xsum, grain),
            Projection::Key => self.wk.row_value(blob, row, x, xs, xsum, grain),
            Projection::Value => self.wv.row_value(blob, row, x, xs, xsum, grain),
        }
    }

    /// Row `r` of the queries, keys and values together: the projection, the row
    /// in it, and its value.
    pub fn qkv(
        &self,
        c: &Cfg,
        blob: &[u8],
        r: usize,
        xq: &[i8],
        xs: &[S],
        xsum: &[i32],
        grain: Grain,
    ) -> (v: (Projection, usize, S))
        requires
            c.is_sound(),
            self.fits(*c, blob@.len() as int),
            r < c.nh * c.hd + 2 * c.nkv * c.hd,
            xq.len() >= c.d,
            xs.len() >= c.d as int / grain.width(),
            xsum.len() >= c.d / 32,
        ensures
            (v.0, v.1 as int) == projected(r as int, c.nh as int, c.nkv as int, c.hd as int),
            v.2 == self.qkv_value(blob@, v.0, v.1 as int, xq@, xs@, xsum@, grain),
    {
        let (p, row) = qkv_row(r, c.nh, c.nkv, c.hd);
        let w: &KMat = match p {
            Projection::Query => &self.wq,
            Projection::Key => &self.wk,
            Projection::Value => &self.wv,
        };
        proof {
            let rows = match p {
                Projection::Query => c.nh * c.hd,
                _ => c.nkv * c.hd,
            };
            rows_are_held(*w, blob@, rows, row as int);
        }
        (p, row, w.dot(blob, row, xq, xs, xsum, grain))
    }

    /// Number `r` of the stream after the attention: `x` plus the row of the
    /// projection.
    pub fn project(
        &self,
        c: &Cfg,
        blob: &[u8],
        r: usize,
        x: S,
        aq: &[i8],
        asc: &[S],
        asum: &[i32],
        grain: Grain,
    ) -> (v: S)
        requires
            self.fits(*c, blob@.len() as int),
            r < c.d,
            aq.len() >= c.nh * c.hd,
            asc.len() >= (c.nh * c.hd) / grain.width(),
            asum.len() >= (c.nh * c.hd) / 32,
        ensures
            v == x.plus_spec(self.wo.row_value(blob@, r as int, aq@, asc@, asum@, grain)),
    {
        proof {
            rows_are_held(self.wo, blob@, c.d as int, r as int);
        }
        x.plus(self.wo.dot(blob, r, aq, asc, asum, grain))
    }

    /// The router's logit of expert `e`.
    pub fn route(&self, c: &Cfg, e: usize, xn: &[S]) -> (v: S)
        requires
            c.is_sound(),
            self.gate_inp@.len() >= c.ne * c.d,
            e < c.ne,
            xn.len() >= c.d,
        ensures
            v == products(S::zero_spec(), self.gate_inp@, e * c.d, xn@, 0, c.d as int),
    {
        proof {
            lemma_mul_inequality(e + 1, c.ne as int, c.d as int);
            lemma_mul_is_distributive_add_other_way(c.d as int, e as int, 1);
            assert(0 <= e * c.d) by (nonlinear_arith);
        }
        add_products(S::zero(), self.gate_inp.as_slice(), e * c.d, xn, 0, c.d)
    }

    /// Row `row` of the gating and of the up projection. In several chains of sums
    /// both are taken in one pass.
    pub open spec fn gate_up_value(
        &self,
        c: Cfg,
        blob: Seq<u8>,
        row: int,
        x: Seq<i8>,
        xs: Seq<S>,
        xsum: Seq<i32>,
        grain: Grain,
    ) -> (S, S) {
        if grain == Grain::Split && self.gate.ttype == TYPE_Q4_K && self.up.ttype == TYPE_Q4_K {
            (
                q4k_gu_value(self.gate.row(blob, row), x, xs, xsum, c.d as int),
                q4k_gu_value(self.up.row(blob, row), x, xs, xsum, c.d as int),
            )
        } else {
            (
                self.gate.row_value(blob, row, x, xs, xsum, grain),
                self.up.row_value(blob, row, x, xs, xsum, grain),
            )
        }
    }

    /// Item `it` of the hidden layers: its row of the gating and of the up
    /// projection.
    pub fn gate_up(
        &self,
        c: &Cfg,
        blob: &[u8],
        it: usize,
        top: &[usize],
        xq: &[i8],
        xs: &[S],
        xsum: &[i32],
        grain: Grain,
    ) -> (v: (S, S))
        requires
            c.is_sound(),
            self.fits(*c, blob@.len() as int),
            experts_below(top@, c.ne as int),
            it < top.len() * c.ffexp,
            xq.len() >= c.d,
            xs.len() >= c.d as int / grain.width(),
            xsum.len() >= c.d / 32,
        ensures
            ({
                let row = expert_row_of(it as int, top@, c.ffexp as int).1;
                v == self.gate_up_value(*c, blob@, row, xq@, xs@, xsum@, grain)
            }),
    {
        let (_, row) = expert_row(it, top, c.ffexp, c.ne);
        proof {
            rows_are_held(self.gate, blob@, c.ne * c.ffexp, row as int);
            rows_are_held(self.up, blob@, c.ne * c.ffexp, row as int);
        }
        if grain == Grain::Split && self.gate.ttype == TYPE_Q4_K && self.up.ttype == TYPE_Q4_K {
            let (ga, ua): (usize, usize) = (
                self.gate.row_start(blob, row),
                self.up.row_start(blob, row),
            );
            let g = slice_subrange(blob, ga, ga + self.gate.bpr);
            let u = slice_subrange(blob, ua, ua + self.up.bpr);
            q4k_gu(g, u, xq, xs, xsum, c.d)
        } else {
            (
                self.gate.dot(blob, row, xq, xs, xsum, grain),
                self.up.dot(blob, row, xq, xs, xsum, grain),
            )
        }
    }

    /// Number `r` of the stream after the first `n` of the chosen experts: each
    /// adds its weight times its row of the down projection. The hidden layers
    /// stand one after another in `h`, with their scales in `hs` and their sums by
    /// 32 in `hm`.
    pub open spec fn stream_value(
        &self,
        c: Cfg,
        blob: Seq<u8>,
        r: int,
        x: S,
        top: Seq<usize>,
        weights: Seq<S>,
        h: Seq<i8>,
        hs: Seq<S>,
        hm: Seq<i32>,
        grain: Grain,
        n: int,
    ) -> S
        decreases n,
    {
        let (w, nb, ns) = (c.ffexp as int, c.ffexp as int / 32, c.ffexp as int / grain.width());
        if n <= 0 {
            x
        } else {
            self.stream_value(c, blob, r, x, top, weights, h, hs, hm, grain, n - 1).mul_plus_spec(
                weights[n - 1],
                self.down.row_value(
                    blob,
                    top[n - 1] * c.d + r,
                    h.subrange((n - 1) * w, (n - 1) * w + w),
                    hs.subrange((n - 1) * ns, (n - 1) * ns + ns),
                    hm.subrange((n - 1) * nb, (n - 1) * nb + nb),
                    grain,
                ),
            )
        }
    }

    /// Number `r` of the stream after all chosen experts; it was `x` before.
    pub fn down(
        &self,
        c: &Cfg,
        blob: &[u8],
        r: usize,
        x: S,
        top: &[usize],
        weights: &[S],
        hq: &[i8],
        hs: &[S],
        hm: &[i32],
        grain: Grain,
    ) -> (v: S)
        requires
            c.is_sound(),
            self.fits(*c, blob@.len() as int),
            r < c.d,
            top.len() == c.topk,
            weights.len() == c.topk,
            experts_below(top@, c.ne as int),
            hq.len() >= c.topk * c.ffexp,
            hs.len() >= c.topk * (c.ffexp as int / grain.width()),
            hm.len() >= c.topk * (c.ffexp as int / 32),
        ensures
            v == self.stream_value(
                *c,
                blob@,
                r as int,
                x,
                top@,
                weights@,
                hq@,
                hs@,
                hm@,
                grain,
                c.topk as int,
            ),
    {
        let (w, nb): (usize, usize) = (c.ffexp, c.ffexp / 32);
        let ns: usize = c.ffexp / grain.levels();
        let mut s: S = x;
        for n in 0..c.topk
            invariant
                c.is_sound(),
                self.fits(*c, blob@.len() as int),
                w == c.ffexp,
                nb == c.ffexp / 32,
                ns == c.ffexp as int / grain.width(),
                r < c.d,
                top.len() == c.topk,
                weights.len() == c.topk,
                experts_below(top@, c.ne as int),
                hq.len() >= c.topk * w,
                hs.len() >= c.topk * ns,
                hm.len() >= c.topk * nb,
                s == self.stream_value(
                    *c,
                    blob@,
                    r as int,
                    x,
                    top@,
                    weights@,
                    hq@,
                    hs@,
                    hm@,
                    grain,
                    n as int,
                ),
        {
            let e: usize = top[n];
            proof {
                lemma_mul_inequality(n + 1, c.topk as int, w as int);
                lemma_mul_is_distributive_add_other_way(w as int, n as int, 1);
                lemma_mul_inequality(n + 1, c.topk as int, nb as int);
                lemma_mul_is_distributive_add_other_way(nb as int, n as int, 1);
                lemma_mul_inequality(n + 1, c.topk as int, ns as int);
                lemma_mul_is_distributive_add_other_way(ns as int, n as int, 1);
                assert(0 <= n * w && 0 <= n * nb && 0 <= n * ns) by (nonlinear_arith);
                assert(hq@.len() == hq.len() && hs@.len() == hs.len() && hm@.len() == hm.len());
                assert(top@[n as int] < c.ne);
                lemma_mul_inequality(e + 1, c.ne as int, c.d as int);
                lemma_mul_is_distributive_add_other_way(c.d as int, e as int, 1);
                assert(0 <= e * c.d) by (nonlinear_arith);
                rows_are_held(self.down, blob@, c.ne * c.d, e * c.d + r);
            }
            let h = slice_subrange(hq, n * w, n * w + w);
            let hsc = slice_subrange(hs, n * ns, n * ns + ns);
            let hsum = slice_subrange(hm, n * nb, n * nb + nb);
            s = s.mul_plus(weights[n], self.down.dot(blob, e * c.d + r, h, hsc, hsum, grain));
        }
        s
    }
}

/// The head of `2 * half` numbers at place `at`, each times `inv` and its weight.
pub open spec fn normed_head<S: Scalar>(v: Seq<S>, at: int, half: int, inv: S, w: Seq<S>) -> Seq<S> {
    Seq::new(
        v.len(),
        |i: int|
            if at <= i < at + 2 * half {
                normed(v[i], inv, w[i - at])
            } else {
                v[i]
            },
    )
}

/// The head of `2 * half` numbers at place `at`, normalized.
pub open spec fn head_normed<S: Analytic>(v: Seq<S>, at: int, half: int, w: Seq<S>, eps: S) -> Seq<
    S,
> {
    let squares = products(S::zero_spec(), v, at, v, at, 2 * half);
    normed_head(v, at, half, inverse_of(squares, (2 * half) as usize, eps), w)
}

/// Normalizes the head of `2 * half` numbers at place `at` and then turns it by
/// the cosines and sines that stand in `table` from place `tat` on.
pub fn head_norm_rope<S: Analytic>(
    v: &mut [S],
    at: usize,
    half: usize,
    w: &[S],
    eps: S,
    table: &[S],
    tat: usize,
)
    requires
        at + 2 * half <= old(v)@.len(),
        2 * half <= w.len(),
        tat + 2 * half <= table.len(),
    ensures
        final(v)@.len() == old(v)@.len(),
        forall|i: int|
            0 <= i < old(v)@.len() ==> #[trigger] final(v)@[i] == if at <= i < at + 2 * half {
                turned(
                    head_normed(old(v)@, at as int, half as int, w@, eps),
                    at as int,
                    half as int,
                    table@,
                    tat as int,
                    i,
                )
            } else {
                old(v)@[i]
            },
{
    assert(v@.len() == v.len());
    let n: usize = 2 * half;
    let inv: S = inverse_rms(sum_squares(v, at, at + n), n, eps);
    for k in 0..n
        invariant
            n == 2 * half,
            at + n <= v@.len(),
            v@.len() == v.len(),
            n <= w.len(),
            v@.len() == old(v)@.len(),
            forall|i: int|
                0 <= i < v@.len() ==> #[trigger] v@[i] == if at <= i < at + k {
                    normed(old(v)@[i], inv, w@[i - at])
                } else {
                    old(v)@[i]
                },
    {
        assert(v@.len() == v.len() && w@.len() == w.len());
        let y: S = v[at + k].times(inv).times(w[k]);
        v[at + k] = y;
    }
    assert(v@ =~= head_normed(old(v)@, at as int, half as int, w@, eps));
    rope(v, at, half, table, tat);
}

} // verus!
