//! Layers of both models on small sizes, and the places that their items write.
use cpubrrr::access::{gptoss_room, gptoss_targets, qwen_room, qwen_targets, Span, Store};
use cpubrrr::config::Cfg;
use cpubrrr::gptoss;
use cpubrrr::kmat::{Grain, KMat, TYPE_Q4_K, TYPE_Q6_K};
use cpubrrr::lanes::Chain;
use cpubrrr::mxfp4::{mx_lookup, QuadMx};
use cpubrrr::q4k::q4k_gu;
use cpubrrr::q8::{block_sums, Q8Mat};
use cpubrrr::qwen;
use cpubrrr::routing::Projection;
use cpubrrr::scalar::Scalar;
use cpubrrr::schedule::{gptoss_items, qwen_items, Phase};
use cpubrrr::select::{best_from, LEAST};

/// A number that hardly rounds.
#[derive(Clone, Copy, PartialEq, Debug)]
struct Num(f64);

impl Scalar for Num {
    fn zero_spec() -> Num {
        Num::zero()
    }
    fn of_int_spec(n: i64) -> Num {
        Num::of_int(n)
    }
    fn of_bits_spec(bits: u32) -> Num {
        Num::of_bits(bits)
    }
    fn plus_spec(self, y: Num) -> Num {
        self.plus(y)
    }
    fn minus_spec(self, y: Num) -> Num {
        self.minus(y)
    }
    fn times_spec(self, y: Num) -> Num {
        self.times(y)
    }
    fn mul_plus_spec(self, a: Num, b: Num) -> Num {
        self.mul_plus(a, b)
    }
    fn fma_spec(self, a: Num, b: Num) -> Num {
        self.fma(a, b)
    }
    fn zero() -> Num {
        Num(0.0)
    }
    fn of_int(n: i64) -> Num {
        Num(n as f64)
    }
    fn of_bits(bits: u32) -> Num {
        Num(f32::from_bits(bits) as f64)
    }
    fn plus(self, y: Num) -> Num {
        Num(self.0 + y.0)
    }
    fn minus(self, y: Num) -> Num {
        Num(self.0 - y.0)
    }
    fn times(self, y: Num) -> Num {
        Num(self.0 * y.0)
    }
    fn mul_plus(self, a: Num, b: Num) -> Num {
        Num(self.0 + a.0 * b.0)
    }
    fn fma(self, a: Num, b: Num) -> Num {
        Num(a.0.mul_add(b.0, self.0))
    }
}

fn sizes() -> Cfg {
    Cfg {
        d: 64,
        nh: 4,
        nkv: 2,
        hd: 32,
        nl: 2,
        ne: 3,
        topk: 2,
        ffexp: 64,
        nvocab: 5,
        swa: 8,
        blocks: 2,
        bpr: 34,
    }
}

fn ints(n: usize, seed: i32) -> Vec<i32> {
    (0..n as i32).map(|i| (i * 29 + seed * 7) % 11 - 5).collect()
}

fn levels(n: usize, seed: i32) -> Vec<i8> {
    (0..n as i32).map(|i| ((i * 17 + seed * 5) % 23 - 11) as i8).collect()
}

fn matrix(rows: usize, cols: usize, seed: i32) -> Q8Mat<i32> {
    Q8Mat { q: levels(rows * cols, seed), s: ints(rows * cols / 32, seed), cols }
}

fn quads(c: &Cfg, seed: usize) -> QuadMx {
    let blocks = c.ne * c.d * (c.d / 32);
    QuadMx {
        nib: (0..blocks * 16).map(|i| (i * 13 + seed) as u8).collect(),
        exps: (0..blocks).map(|i| (i * 3 + seed) as u8).collect(),
    }
}

fn layer(c: &Cfg) -> gptoss::Layer<i32> {
    let rows = c.ne * c.d;
    gptoss::Layer {
        attn_norm: ints(c.d, 1),
        ffn_norm: ints(c.d, 2),
        wq: matrix(c.nh * c.hd, c.d, 3),
        wk: matrix(c.nkv * c.hd, c.d, 4),
        wv: matrix(c.nkv * c.hd, c.d, 5),
        wo: matrix(c.d, c.nh * c.hd, 6),
        bq: ints(c.nh * c.hd, 7),
        bk: ints(c.nkv * c.hd, 8),
        bv: ints(c.nkv * c.hd, 9),
        bo: ints(c.d, 10),
        sinks: ints(c.nh, 11),
        ginp: ints(rows, 12),
        ginp_b: ints(c.ne, 13),
        gate: quads(c, 14),
        up: quads(c, 15),
        down: quads(c, 16),
        gate_b: ints(rows, 17),
        up_b: ints(rows, 18),
        down_b: ints(rows, 19),
    }
}

/// A row of an 8-bit matrix times levels.
fn row_dot(m: &Q8Mat<i32>, r: usize, x: &[i8], xs: &[i32]) -> i32 {
    (0..m.cols)
        .map(|c| {
            let w = m.q[r * m.cols + c] as i32 * m.s[r * (m.cols / 32) + c / 32];
            w * x[c] as i32 * xs[c / 32]
        })
        .sum()
}

/// A row of a matrix in quads times levels.
fn quad_row_dot(m: &QuadMx, row: usize, nb: usize, x: &[i8], xs: &[i32], pow: &[i32]) -> i32 {
    let (q, r) = (row / 4, row % 4);
    (0..nb)
        .map(|b| {
            let g = q * nb + b;
            let dot: i32 = (0..32)
                .map(|i| {
                    let byte = m.nib[g * 64 + r * 16 + i % 16];
                    let code = if i < 16 { byte & 15 } else { byte >> 4 };
                    mx_lookup(code) as i32 * x[b * 32 + i] as i32
                })
                .sum();
            dot * pow[m.exps[g * 4 + r] as usize] * xs[b]
        })
        .sum()
}

#[test]
fn attention_rows_have_their_biases() {
    let c = sizes();
    assert!(c.sound());
    let l = layer(&c);
    assert!(l.fit(&c));
    let (x, xs) = (levels(c.d, 21), ints(2, 22));
    let want = |m: &Q8Mat<i32>, b: &[i32], r: usize| row_dot(m, r, &x, &xs) + b[r];
    let (a, s) = (levels(128, 23), ints(4, 24));
    // on integers both ways to add up a row agree
    for chain in [Chain::Single, Chain::Split] {
        let query = (Projection::Query, 5, want(&l.wq, &l.bq, 5));
        assert_eq!(l.qkv(&c, 5, &x, &xs, chain), query);
        let key = (Projection::Key, 9, want(&l.wk, &l.bk, 9));
        assert_eq!(l.qkv(&c, 128 + 9, &x, &xs, chain), key);
        let value = (Projection::Value, 0, want(&l.wv, &l.bv, 0));
        assert_eq!(l.qkv(&c, 128 + 64, &x, &xs, chain), value);
        let after = 1000 + row_dot(&l.wo, 63, &a, &s) + l.bo[63];
        assert_eq!(l.project(&c, 63, 1000, &a, &s, chain), after);
    }
    let xn = ints(c.d, 25);
    let logit: i32 = (0..c.d).map(|j| l.ginp[2 * c.d + j] * xn[j]).sum();
    assert_eq!(l.route(&c, 2, &xn), l.ginp_b[2] + logit);
}

#[test]
fn smaller_weights_do_not_fit() {
    let c = sizes();
    let mut l = layer(&c);
    l.down.nib.pop();
    assert!(!l.fit(&c));
    let mut l = layer(&c);
    l.wo.cols = 96;
    assert!(!l.fit(&c));
    let mut l = layer(&c);
    l.sinks.pop();
    assert!(!l.fit(&c));
}

#[test]
fn experts_add_their_weighted_rows() {
    let c = sizes();
    let l = layer(&c);
    let pow = ints(256, 31);
    let (x, xs) = (levels(c.d, 32), ints(2, 33));
    let top = [2usize, 0];
    // item 40 is quad 8 of the gating rows of the second slot, item 50 quad 2 of its up rows
    let (at, four) = l.gate_up(&c, 40, &top, &x, &xs, &pow);
    assert_eq!(at, 160);
    for i in 0..4 {
        let row = 32 + i;
        let want = quad_row_dot(&l.gate, row, 2, &x, &xs, &pow) + l.gate_b[row];
        assert_eq!(four[i], want);
    }
    let (at, four) = l.gate_up(&c, 50, &top, &x, &xs, &pow);
    assert_eq!(at, 200);
    for i in 0..4 {
        let want = quad_row_dot(&l.up, 8 + i, 2, &x, &xs, &pow) + l.up_b[8 + i];
        assert_eq!(four[i], want);
    }
    assert_eq!(l.gate_up_quad(&c, false, 2, &x, &xs, &pow), four);
    let (hq, hs) = (levels(2 * c.d, 34), ints(4, 35));
    let weights = [3, -2];
    let sum = l.down(&c, 7, [10, 20, 30, 40], &top, &weights, &hq, &hs, &pow);
    for i in 0..4 {
        let mut want = [10, 20, 30, 40][i];
        for (n, &e) in top.iter().enumerate() {
            let row = e * c.d + 28 + i;
            let h = &hq[n * c.d..(n + 1) * c.d];
            let v = quad_row_dot(&l.down, row, 2, h, &hs[2 * n..], &pow) + l.down_b[row];
            want += weights[n] * v;
        }
        assert_eq!(sum[i], want);
    }
    let one = l.down_quad(&c, 2, 7, &hq, &hs, &pow);
    assert_eq!(one[1], quad_row_dot(&l.down, 157, 2, &hq, &hs, &pow) + l.down_b[157]);
}

/// Sizes and a weight file of the model with normalized heads.
fn qwen_layer() -> (Cfg, Vec<u8>, qwen::Layer<Num>) {
    let c = Cfg { d: 256, hd: 64, ffexp: 256, ..sizes() };
    let mut blob = Vec::new();
    let mut place = |rows: usize, ttype: u32| {
        let m = KMat::new(blob.len(), ttype, 256).unwrap();
        for r in 0..rows {
            let at = blob.len();
            blob.extend((0..m.bpr).map(|i| (i * 31 + r * 7 + at) as u8));
            // moderate factors
            let half = if ttype == TYPE_Q4_K { [1, 3] } else { [209, 209] };
            blob[at + half[0]] = 0x2c;
            blob[at + half[1]] = 0x28;
        }
        m
    };
    let norm = |n: usize| -> Vec<Num> { (0..n).map(|i| Num(1.0 + i as f64)).collect() };
    let l = qwen::Layer {
        attn_norm: norm(256),
        ffn_norm: norm(256),
        q_norm: norm(64),
        k_norm: norm(64),
        wq: place(256, TYPE_Q4_K),
        wk: place(128, TYPE_Q4_K),
        wv: place(128, TYPE_Q6_K),
        wo: place(256, TYPE_Q4_K),
        gate_inp: (0..3 * 256).map(|i| Num((i % 7) as f64 - 3.0)).collect(),
        gate: place(3 * 256, TYPE_Q4_K),
        up: place(3 * 256, TYPE_Q4_K),
        down: place(3 * 256, TYPE_Q6_K),
    };
    (c, blob, l)
}

#[test]
fn rows_stay_in_the_weight_file() {
    let (c, blob, l) = qwen_layer();
    assert!(c.sound() && l.fit(&c, blob.len()) && !l.fit(&c, blob.len() - 1));
    let x = levels(512, 41);
    let sums = block_sums(&x);
    for (grain, w) in [(Grain::Block, 32), (Grain::Split, 32), (Grain::Super, 256)] {
        let xs: Vec<Num> = (0..512 / w).map(|i| Num(0.5 + i as f64)).collect();
        let ns = 256 / w;
        let dot = |m: &KMat, r: usize| m.dot(&blob, r, &x, &xs, &sums, grain);
        let got = l.qkv(&c, &blob, 3, &x, &xs, &sums, grain);
        assert_eq!(got, (Projection::Query, 3, dot(&l.wq, 3)));
        let got = l.qkv(&c, &blob, 256 + 128 + 4, &x, &xs, &sums, grain);
        assert_eq!(got, (Projection::Value, 4, dot(&l.wv, 4)));
        let after = l.project(&c, &blob, 8, Num(2.0), &x, &xs, &sums, grain);
        assert_eq!(after, Num(2.0).plus(dot(&l.wo, 8)));
        let top = [2usize, 1];
        // item 300 is row 44 of the second slot
        let got = l.gate_up(&c, &blob, 300, &top, &x, &xs, &sums, grain);
        if grain == Grain::Split {
            let row = |m: &KMat| m.row_start(&blob, 300);
            let (a, b) = (&blob[row(&l.gate)..], &blob[row(&l.up)..]);
            assert_eq!(got, q4k_gu(a, b, &x, &xs, &sums, 256));
        } else {
            assert_eq!(got, (dot(&l.gate, 300), dot(&l.up, 300)));
        }
        let weights = [Num(0.75), Num(0.25)];
        let got = l.down(&c, &blob, 9, Num(1.0), &top, &weights, &x, &xs, &sums, grain);
        let m = &l.down;
        let first = m.dot(&blob, 2 * 256 + 9, &x[..256], &xs[..ns], &sums[..8], grain);
        let second = m.dot(&blob, 256 + 9, &x[256..], &xs[ns..], &sums[8..], grain);
        let want = Num(1.0).mul_plus(Num(0.75), first).mul_plus(Num(0.25), second);
        assert_eq!(got, want);
    }
    let xn: Vec<Num> = (0..256).map(|i| Num(i as f64)).collect();
    let logit: f64 = (0..256).map(|j| l.gate_inp[256 + j].0 * j as f64).sum();
    assert_eq!(l.route(&c, 1, &xn), Num(logit));
}

const STORES: [Store; 22] = [
    Store::Stream,
    Store::Normed,
    Store::Levels,
    Store::Scales,
    Store::Sums,
    Store::Queries,
    Store::Keys,
    Store::Values,
    Store::Mixed,
    Store::MixedLevels,
    Store::MixedScales,
    Store::MixedSums,
    Store::Hidden,
    Store::HiddenLevels,
    Store::HiddenScales,
    Store::HiddenSums,
    Store::Router,
    Store::Logits,
    Store::Squares,
    Store::Bests,
    Store::KeyCache,
    Store::ValueCache,
];

/// Counts the places that all items of a phase write, each of them once.
fn written(items: usize, room: &dyn Fn(Store) -> usize, f: &dyn Fn(usize) -> Vec<Span>) -> usize {
    let mut seen = std::collections::HashSet::new();
    let mut total = 0;
    for it in 0..items {
        for span in f(it) {
            assert!(span.at + span.len <= room(span.store));
            total += span.len;
            for i in 0..span.len {
                assert!(seen.insert((span.store as usize, span.at + i)));
            }
        }
    }
    total
}

#[test]
fn items_of_a_phase_fill_their_buffers_apart() {
    let c = sizes();
    let room = |s: Store| gptoss_room(s, &c);
    let count = |p: Phase| {
        written(gptoss_items(p, &c), &room, &|it| gptoss_targets(p, &c, 1, 3, it))
    };
    assert_eq!(count(Phase::Embed), c.d);
    assert_eq!(count(Phase::FfnNorm), c.d);
    assert_eq!(count(Phase::AttnQuant), c.d + c.d / 32);
    assert_eq!(count(Phase::Qkv), 128 + 64 + 64);
    // the rotated queries and keys, and one position of both caches
    assert_eq!(count(Phase::Rope), 128 + 64 + 64 + 64);
    assert_eq!(count(Phase::Attend), 128 + 128 + 4);
    assert_eq!(count(Phase::Project), c.d);
    assert_eq!(count(Phase::Route), c.ne);
    assert_eq!(count(Phase::GateUp), 2 * 2 * c.d);
    assert_eq!(count(Phase::Activate), 2 * c.d + 4);
    assert_eq!(count(Phase::Down), c.d);
    assert_eq!(count(Phase::Head), c.nvocab);
    assert_eq!(count(Phase::Pick), 0);
    let total: usize = STORES.iter().map(|s| room(*s)).sum();
    let caches = 2 * 2 * 4096 * 2 * 32;
    assert_eq!(total, caches + 3 * 64 + 2 + 3 * 128 + 2 * 64 + 4 + 256 + 128 + 4 + 3 + 5);
}

#[test]
fn units_of_a_phase_fill_their_buffers_apart() {
    let c = Cfg { d: 256, ..sizes() };
    let grain = Grain::Block;
    let room = |s: Store| qwen_room(s, &c, grain);
    let units = |p: Phase| match p {
        Phase::HeadSquares | Phase::Head => 12,
        _ => qwen_items(p, &c, grain),
    };
    let count = |p: Phase| written(units(p), &room, &|it| qwen_targets(p, &c, grain, 0, 0, it));
    assert_eq!(count(Phase::Embed), 256);
    assert_eq!(count(Phase::HeadSquares), 12);
    assert_eq!(count(Phase::HeadQuant), 256 + 8 + 8);
    assert_eq!(count(Phase::Qkv), 256);
    assert_eq!(count(Phase::Rope), 128 + 3 * 64);
    assert_eq!(count(Phase::Attend), 128);
    assert_eq!(count(Phase::AttendQuant), 128 + 4 + 4);
    assert_eq!(count(Phase::GateUp), 2 * 64);
    assert_eq!(count(Phase::HiddenQuant), 128 + 4 + 4);
    assert_eq!(count(Phase::Down), 256);
    assert_eq!(count(Phase::Head), 12);
    assert_eq!(count(Phase::Activate), 0);
    // with one scale for 256 levels
    let wide = Grain::Super;
    let room = |s: Store| qwen_room(s, &c, wide);
    let items = qwen_items(Phase::AttnQuant, &c, wide);
    let f = |it: usize| qwen_targets(Phase::AttnQuant, &c, wide, 0, 0, it);
    assert_eq!(written(items, &room, &f), 256 + 1 + 8);
}

#[test]
fn best_of_a_run_keeps_its_index() {
    let bits = |v: &[f32]| -> Vec<u32> { v.iter().map(|x| x.to_bits()).collect() };
    assert_eq!(best_from(&bits(&[1.0, 3.0, 3.0, -2.0]), 100), (3f32.to_bits(), 101));
    assert_eq!(best_from(&bits(&[f32::NAN, -5.0]), 7), ((-5f32).to_bits(), 8));
    assert_eq!(best_from(&bits(&[f32::NEG_INFINITY, f32::MIN]), 7), (LEAST, 0));
    assert_eq!(best_from(&[], 7), (LEAST, 0));
}
