//! Whole passes of small models, item by item, against the same pass stage by stage.
use cpubrrr::access::{
    gptoss_fills, gptoss_room, gptoss_targets, qwen_fills, qwen_room, qwen_targets, Span, Store,
};
use cpubrrr::activation::{activated, silu};
use cpubrrr::analytic::Analytic;
use cpubrrr::attend::{attend, attend_with_sink};
use cpubrrr::attention::MAXSEQ;
use cpubrrr::batch::{batch_add, batch_down, batch_gate_up, batch_hidden};
use cpubrrr::batch_store::{put_down, put_gate_up};
use cpubrrr::config::Cfg;
use cpubrrr::dense::rope;
use cpubrrr::even;
use cpubrrr::gptoss;
use cpubrrr::gptoss_pass;
use cpubrrr::kmat::{Grain, KMat, TYPE_Q4_K, TYPE_Q6_K};
use cpubrrr::lanes::Chain;
use cpubrrr::mxfp4::{exp_tbl, QuadMx};
use cpubrrr::norm::{norm_run, norm_run_of_parts};
use cpubrrr::partition::run;
use cpubrrr::piece::Piece;
use cpubrrr::q4k::dequant_q4k;
use cpubrrr::q8::{block_sums, Q8Mat};
use cpubrrr::quantize::{quant_i8, quant_run};
use cpubrrr::qwen;
use cpubrrr::qwen_pass;
use cpubrrr::rng::{rng_next, DEFAULT_STATE};
use cpubrrr::routing::{Projection, TILE};
use cpubrrr::sampling::choose_experts;
use cpubrrr::scalar::Scalar;
use cpubrrr::schedule::{
    gptoss_barrier, gptoss_items, gptoss_step, qwen_items, qwen_step, Phase, Step,
};
use cpubrrr::select::{
    active_experts, best_from, greedy, group_by_expert, merge_best, pack_best,
};
use cpubrrr::tensors::bf16_run;
use cpubrrr::work::{gptoss_work, qwen_work, Before};

#[derive(Clone, Copy, Debug, PartialEq)]
struct Single(f32);

impl Scalar for Single {
    fn zero_spec() -> Single {
        unreachable!()
    }
    fn of_int_spec(_: i64) -> Single {
        unreachable!()
    }
    fn of_bits_spec(_: u32) -> Single {
        unreachable!()
    }
    fn plus_spec(self, _: Single) -> Single {
        unreachable!()
    }
    fn minus_spec(self, _: Single) -> Single {
        unreachable!()
    }
    fn times_spec(self, _: Single) -> Single {
        unreachable!()
    }
    fn mul_plus_spec(self, _: Single, _: Single) -> Single {
        unreachable!()
    }
    fn fma_spec(self, _: Single, _: Single) -> Single {
        unreachable!()
    }
    fn zero() -> Single {
        Single(0.0)
    }
    fn of_int(n: i64) -> Single {
        Single(n as f32)
    }
    fn of_bits(bits: u32) -> Single {
        Single(f32::from_bits(bits))
    }
    fn plus(self, y: Single) -> Single {
        Single(self.0 + y.0)
    }
    fn minus(self, y: Single) -> Single {
        Single(self.0 - y.0)
    }
    fn times(self, y: Single) -> Single {
        Single(self.0 * y.0)
    }
    fn mul_plus(self, a: Single, b: Single) -> Single {
        Single(self.0 + a.0 * b.0)
    }
    fn fma(self, a: Single, b: Single) -> Single {
        Single(a.0.mul_add(b.0, self.0))
    }
}

impl Analytic for Single {
    fn over_spec(self, _: Single) -> Single {
        unreachable!()
    }
    fn larger_spec(self, _: Single) -> Single {
        unreachable!()
    }
    fn smaller_spec(self, _: Single) -> Single {
        unreachable!()
    }
    fn clamped_spec(self, _: Single, _: Single) -> Single {
        unreachable!()
    }
    fn magnitude_spec(self) -> Single {
        unreachable!()
    }
    fn exp_spec(self) -> Single {
        unreachable!()
    }
    fn root_spec(self) -> Single {
        unreachable!()
    }
    fn level_spec(self) -> i8 {
        unreachable!()
    }
    fn at_most_spec(self, _: Single) -> bool {
        unreachable!()
    }
    fn over(self, y: Single) -> Single {
        Single(self.0 / y.0)
    }
    fn larger(self, y: Single) -> Single {
        Single(self.0.max(y.0))
    }
    fn smaller(self, y: Single) -> Single {
        Single(self.0.min(y.0))
    }
    fn clamped(self, low: Single, high: Single) -> Single {
        Single(self.0.clamp(low.0, high.0))
    }
    fn magnitude(self) -> Single {
        Single(self.0.abs())
    }
    fn exp(self) -> Single {
        Single(self.0.exp())
    }
    fn root(self) -> Single {
        Single(self.0.sqrt())
    }
    fn level(self) -> i8 {
        self.0.round().clamp(-127.0, 127.0) as i8
    }
    fn at_most(self, y: Single) -> bool {
        self.0 <= y.0
    }
}

fn bits(v: &[Single]) -> Vec<u32> {
    v.iter().map(|x| x.0.to_bits()).collect()
}

/// Numbers between -2 and 2 that repeat late.
fn wave(n: usize, seed: u64) -> Vec<Single> {
    let mut s = DEFAULT_STATE ^ seed;
    (0..n).map(|_| Single(((rng_next(&mut s) >> 40) as f32 / 4194304.0) - 2.0)).collect()
}

/// The numbers times a factor.
fn small(v: Vec<Single>, by: f32) -> Vec<Single> {
    v.into_iter().map(|x| Single(x.0 * by)).collect()
}

/// The shared buffers.
#[derive(Clone, PartialEq)]
struct Memory {
    reals: Vec<Vec<Single>>,
    levels: Vec<Vec<i8>>,
    sums: Vec<Vec<i32>>,
    bests: Vec<u64>,
}

const STORES: [Store; 22] = [
    Store::Stream,
    Store::Normed,
    Store::Levels,
    Store::Scales,
    Store::Sums,
    Store::Queries,
    Store::Keys,
    Store::Values,
    Store::Mixed,
    Store::MixedLevels,
    Store::MixedScales,
    Store::MixedSums,
    Store::Hidden,
    Store::HiddenLevels,
    Store::HiddenScales,
    Store::HiddenSums,
    Store::Router,
    Store::Logits,
    Store::Squares,
    Store::Bests,
    Store::KeyCache,
    Store::ValueCache,
];

impl Memory {
    fn new(room: &dyn Fn(Store) -> usize) -> Memory {
        Memory {
            reals: STORES.iter().map(|s| vec![Single(0.0); room(*s)]).collect(),
            levels: STORES.iter().map(|s| vec![0; room(*s)]).collect(),
            sums: STORES.iter().map(|s| vec![0; room(*s)]).collect(),
            bests: vec![0; room(Store::Bests)],
        }
    }

    fn put(&mut self, span: &Span, piece: &Piece<Single>) {
        let (store, a, b) = (span.store as usize, span.at, span.at + span.len);
        match piece {
            Piece::Reals(v) => self.reals[store][a..b].copy_from_slice(v),
            Piece::Levels(v) => self.levels[store][a..b].copy_from_slice(v),
            Piece::Sums(v) => self.sums[store][a..b].copy_from_slice(v),
        }
    }

    fn at(&self, span: &Span) -> &[Single] {
        &self.reals[span.store as usize][span.at..span.at + span.len]
    }
}

// ------------------------------------------------ the model with an attention window

fn gptoss_sizes() -> Cfg {
    Cfg {
        d: 64,
        nh: 4,
        nkv: 2,
        hd: 64,
        nl: 2,
        ne: 3,
        topk: 2,
        ffexp: 64,
        nvocab: 6,
        swa: 2,
        blocks: 2,
        bpr: 34,
    }
}

fn q8(rows: usize, cols: usize, seed: u64) -> Q8Mat<Single> {
    let (q, s) = quant_i8(&small(wave(rows * cols, seed), 0.25));
    Q8Mat { q, s, cols }
}

fn quads(c: &Cfg, seed: usize) -> QuadMx {
    let blocks = c.ne * c.d * (c.d / 32);
    QuadMx {
        nib: (0..blocks * 16).map(|i| (i * 13 + seed) as u8).collect(),
        exps: (0..blocks).map(|i| 122 + ((i * 3 + seed) % 4) as u8).collect(),
    }
}

fn gptoss_layer(c: &Cfg, seed: u64) -> gptoss::Layer<Single> {
    let rows = c.ne * c.d;
    gptoss::Layer {
        attn_norm: wave(c.d, seed),
        ffn_norm: wave(c.d, seed + 1),
        wq: q8(c.nh * c.hd, c.d, seed + 2),
        wk: q8(c.nkv * c.hd, c.d, seed + 3),
        wv: q8(c.nkv * c.hd, c.d, seed + 4),
        wo: q8(c.d, c.nh * c.hd, seed + 5),
        bq: wave(c.nh * c.hd, seed + 6),
        bk: wave(c.nkv * c.hd, seed + 7),
        bv: wave(c.nkv * c.hd, seed + 8),
        bo: wave(c.d, seed + 9),
        sinks: wave(c.nh, seed + 10),
        ginp: wave(rows, seed + 11),
        ginp_b: wave(c.ne, seed + 12),
        gate: quads(c, seed as usize + 13),
        up: quads(c, seed as usize + 14),
        down: quads(c, seed as usize + 15),
        gate_b: wave(rows, seed + 16),
        up_b: wave(rows, seed + 17),
        down_b: wave(rows, seed + 18),
    }
}

fn gptoss_model(c: &Cfg, chain: Chain) -> (gptoss_pass::Model<Single>, Vec<u8>) {
    let embed: Vec<u8> = wave(c.nvocab * c.d, 77)
        .iter()
        .flat_map(|v| ((v.0.to_bits() >> 16) as u16).to_le_bytes())
        .collect();
    let mut blob = vec![0u8; 9];
    blob.extend(embed);
    let m = gptoss_pass::Model {
        layers: vec![gptoss_layer(c, 100), gptoss_layer(c, 200)],
        out_norm: wave(c.d, 300),
        head: q8(c.nvocab, c.d, 301),
        eps: Single(1e-5),
        turns: wave(MAXSEQ * c.hd, 302),
        pow: exp_tbl(),
        embed_at: 9,
        chain,
    };
    (m, blob)
}

/// A pass item by item; `order` says in which order the items of a phase come.
fn gptoss_by_items(
    m: &gptoss_pass::Model<Single>,
    c: &Cfg,
    blob: &[u8],
    mem: &mut Memory,
    tok: u32,
    pos: usize,
    order: &dyn Fn(usize) -> Vec<usize>,
    swapped: bool,
) {
    let mut chosen: (Vec<usize>, Vec<Single>) = (Vec::new(), Vec::new());
    let mut steps: Vec<Step> = (0..).map_while(|k| gptoss_step(k, c.nl, true)).collect();
    if swapped {
        // no barrier stands between the quantization and the router
        for k in 1..steps.len() {
            if steps[k].phase == Phase::Route {
                assert!(!gptoss_barrier(steps[k - 1].phase));
                steps.swap(k - 1, k);
            }
        }
    }
    for step in steps {
        let phase = step.phase;
        if gptoss_work(phase, 3, (0, 0)).before == Before::Choose {
            chosen = choose_experts(&bits(&mem.reals[Store::Router as usize]), c.topk);
        }
        let norm = matches!(phase, Phase::AttnNorm | Phase::FfnNorm | Phase::HeadNorm);
        let stream = &mem.reals[Store::Stream as usize];
        let inv = if norm { m.inverse(stream) } else { Single(0.0) };
        let t = gptoss_pass::Turn { tok, pos, top: &chosen.0, weights: &chosen.1 };
        for it in order(gptoss_items(phase, c)) {
            let spans = gptoss_targets(phase, c, step.layer, pos, it);
            let rewrites = matches!(phase, Phase::Rope | Phase::Project | Phase::Down);
            // every item sees what the items before it have left
            let reals = |s: Store| -> &[Single] {
                if gptoss_fills(phase, s) { &[] } else { &mem.reals[s as usize] }
            };
            let levels = |s: Store| -> &[i8] {
                if gptoss_fills(phase, s) { &[] } else { &mem.levels[s as usize] }
            };
            let b = gptoss_pass::Shared {
                own: if rewrites { mem.at(&spans[0]) } else { &[] },
                stream: reals(Store::Stream),
                normed: reals(Store::Normed),
                levels: levels(Store::Levels),
                scales: reals(Store::Scales),
                queries: reals(Store::Queries),
                values: reals(Store::Values),
                key_cache: reals(Store::KeyCache),
                value_cache: reals(Store::ValueCache),
                mixed_levels: levels(Store::MixedLevels),
                mixed_scales: reals(Store::MixedScales),
                hidden: reals(Store::Hidden),
                hidden_levels: levels(Store::HiddenLevels),
                hidden_scales: reals(Store::HiddenScales),
            };
            let out = m.item(c, blob, phase, step.layer, &t, &b, inv, it);
            assert_eq!(out.len(), spans.len());
            for (span, piece) in spans.iter().zip(&out) {
                mem.put(span, piece);
            }
        }
    }
}

/// The same pass stage by stage, with caches by layer.
fn gptoss_by_stages(
    m: &gptoss_pass::Model<Single>,
    c: &Cfg,
    blob: &[u8],
    kc: &mut [Vec<Single>],
    vc: &mut [Vec<Single>],
    tok: usize,
    pos: usize,
) -> Vec<Single> {
    let mut x: Vec<Single> =
        bf16_run(blob, m.embed_at, tok * c.d, c.d).into_iter().map(Single::of_bits).collect();
    for (il, l) in m.layers.iter().enumerate() {
        let (xq, xs) = quant_i8(&norm_run(&x, m.eps, &l.attn_norm, 0, c.d));
        let (mut q, mut k, mut v) = (Vec::new(), Vec::new(), Vec::new());
        for r in 0..c.nh * c.hd + 2 * c.nkv * c.hd {
            let (p, _, value) = l.qkv(c, r, &xq, &xs, m.chain);
            match p {
                Projection::Query => q.push(value),
                Projection::Key => k.push(value),
                Projection::Value => v.push(value),
            }
        }
        for h in 0..c.nh {
            rope(&mut q, h * c.hd, c.hd / 2, &m.turns, pos * c.hd);
        }
        for h in 0..c.nkv {
            rope(&mut k, h * c.hd, c.hd / 2, &m.turns, pos * c.hd);
        }
        kc[il].extend(k);
        vc[il].extend(v);
        let mut mixed = Vec::new();
        for h in 0..c.nh {
            mixed.extend(attend_with_sink(c, il, h, &q, &kc[il], &vc[il], 0, pos, l.sinks[h]));
        }
        let (aq, s) = quant_i8(&mixed);
        x = (0..c.d).map(|r| l.project(c, r, x[r], &aq, &s, m.chain)).collect();
        let xn = norm_run(&x, m.eps, &l.ffn_norm, 0, c.d);
        let logits: Vec<Single> = (0..c.ne).map(|e| l.route(c, e, &xn)).collect();
        let (top, weights): (Vec<usize>, Vec<Single>) = choose_experts(&bits(&logits), c.topk);
        let (xq, xs) = quant_i8(&xn);
        let mut gu = vec![Single(0.0); c.topk * 2 * c.d];
        for it in 0..c.topk * 2 * (c.d / 4) {
            let (at, four) = l.gate_up(c, it, &top, &xq, &xs, &m.pow);
            gu[at..at + 4].copy_from_slice(&four);
        }
        let (mut hq, mut hs) = (Vec::new(), Vec::new());
        for slot in 0..c.topk {
            for blk in 0..c.d / 32 {
                let at = slot * 2 * c.d + 32 * blk;
                let (levels, scale) = activated(&gu, at, at + c.d);
                hq.extend(levels);
                hs.push(scale);
            }
        }
        x = (0..c.d / 4)
            .flat_map(|quad| {
                let four = [x[4 * quad], x[4 * quad + 1], x[4 * quad + 2], x[4 * quad + 3]];
                l.down(c, quad, four, &top, &weights, &hq, &hs, &m.pow)
            })
            .collect();
    }
    let (xq, xs) = quant_i8(&norm_run(&x, m.eps, &m.out_norm, 0, c.d));
    (0..c.nvocab).map(|r| m.head.dot(r, &xq, &xs, m.chain)).collect()
}

#[test]
fn items_of_a_windowed_pass_make_up_the_pass() {
    let c = gptoss_sizes();
    for chain in [Chain::Single, Chain::Split] {
        let (m, blob) = gptoss_model(&c, chain);
        assert!(m.fit(&c, blob.len()) && !m.fit(&c, blob.len() - 1));
        assert!(!m.fit(&Cfg { hd: 32, ..c }, blob.len()));
        let room = |s: Store| gptoss_room(s, &c);
        let (mut there, mut back) = (Memory::new(&room), Memory::new(&room));
        let (mut kc, mut vc) = (vec![Vec::new(); 2], vec![Vec::new(); 2]);
        // the fourth token is out of the window of the first
        for (pos, tok) in [3usize, 0, 5, 3].into_iter().enumerate() {
            let (up, down) = (|n| (0..n).collect(), |n| (0..n).rev().collect());
            gptoss_by_items(&m, &c, &blob, &mut there, tok as u32, pos, &up, false);
            gptoss_by_items(&m, &c, &blob, &mut back, tok as u32, pos, &down, true);
            let want = gptoss_by_stages(&m, &c, &blob, &mut kc, &mut vc, tok, pos);
            let got = &there.reals[Store::Logits as usize];
            assert!(want.iter().all(|l| l.0.is_finite()));
            assert_eq!(got, &want);
            assert!(there == back, "the order of the items matters");
        }
    }
}

#[test]
fn a_batch_serves_each_token_as_a_pass_does() {
    let c = gptoss_sizes();
    let (l, pow) = (gptoss_layer(&c, 100), exp_tbl::<Single>());
    let bsz = 11;
    let streams: Vec<Vec<Single>> = (0..bsz).map(|b| wave(c.d, 500 + b as u64)).collect();
    let (mut chosen, mut weights) = (Vec::new(), Vec::new());
    let (mut xq, mut xs, mut want) = (Vec::new(), Vec::new(), Vec::new());
    for x in &streams {
        let xn = norm_run(x, Single(1e-5), &l.ffn_norm, 0, c.d);
        let logits: Vec<Single> = (0..c.ne).map(|e| l.route(&c, e, &xn)).collect();
        let (top, w): (Vec<usize>, Vec<Single>) = choose_experts(&bits(&logits), c.topk);
        let (q, s) = quant_i8(&xn);
        // the token by itself
        let mut gu = vec![Single(0.0); c.topk * 2 * c.d];
        for it in 0..c.topk * 2 * (c.d / 4) {
            let (out, four) = l.gate_up(&c, it, &top, &q, &s, &pow);
            gu[out..out + 4].copy_from_slice(&four);
        }
        let (mut hq, mut hs) = (Vec::new(), Vec::new());
        for slot in 0..c.topk {
            for blk in 0..c.d / 32 {
                let at = slot * 2 * c.d + 32 * blk;
                let (levels, scale) = activated(&gu, at, at + c.d);
                hq.extend(levels);
                hs.push(scale);
            }
        }
        let after: Vec<Single> = (0..c.d / 4)
            .flat_map(|quad| {
                let four = [x[4 * quad], x[4 * quad + 1], x[4 * quad + 2], x[4 * quad + 3]];
                l.down(&c, quad, four, &top, &w, &hq, &hs, &pow)
            })
            .collect();
        want.push(after);
        chosen.extend(top);
        weights.extend(w);
        xq.push(q);
        xs.push(s);
    }
    let groups = group_by_expert(&chosen, c.topk, c.ne);
    let active = active_experts(&groups);
    let mut gu = vec![Single(0.0); bsz * c.topk * 2 * c.d];
    let mut ffn = vec![Single(0.0); bsz * c.topk * c.d];
    let tiles: Vec<(usize, usize)> = (0..2).filter_map(|t| run(bsz, TILE, t)).collect();
    assert_eq!(tiles, vec![(0, 8), (8, 11)]);
    let mut quads = 0;
    for &tile in &tiles {
        let found: Vec<_> = (0..active.len() * c.d)
            .map(|it| batch_gate_up(&l, &c, it, &active, &groups, tile, &xq, &xs, &pow))
            .collect();
        quads += found.iter().map(|f| f.len()).sum::<usize>();
        let before = gu.clone();
        put_gate_up(&l, &c, &chosen, &active, &groups, tile, &xq, &xs, &pow, &found, &mut gu);
        for x in 0..gu.len() {
            let b = x / (c.topk * 2 * c.d);
            assert!((tile.0 <= b && b < tile.1) || gu[x] == before[x]);
        }
    }
    assert_eq!(quads, bsz * c.topk * c.d / 4);
    let (hq, hs): (Vec<Vec<i8>>, Vec<Vec<Single>>) =
        (0..bsz * c.topk).map(|slot| batch_hidden(&gu, slot, c.d)).unzip();
    for &tile in &tiles {
        let found: Vec<_> = (0..active.len() * c.d)
            .map(|it| batch_down(&l, &c, it, &active, &groups, tile, &hq, &hs, &pow, bsz))
            .collect();
        put_down(&l, &c, &chosen, &active, &groups, tile, &hq, &hs, &pow, bsz, &found, &mut ffn);
    }
    for (b, x) in streams.iter().enumerate() {
        let mut got = x.clone();
        batch_add(&mut got, &weights, &ffn, b, c.topk, c.d);
        assert!(got != *x);
        assert_eq!(got, want[b]);
    }
}

// --------------------------------------------------- the model with normalized heads

fn qwen_sizes() -> Cfg {
    Cfg { d: 256, ffexp: 256, nh: 4, ..gptoss_sizes() }
}

fn qwen_model(c: &Cfg, grain: Grain) -> (qwen_pass::Model<Single>, Vec<u8>) {
    let mut blob = vec![0u8; 5];
    let mut seed = DEFAULT_STATE;
    let mut place = |rows: usize, ttype: u32| {
        let m = KMat::new(blob.len(), ttype, 256).unwrap();
        for _ in 0..rows {
            let at = blob.len();
            blob.extend((0..m.bpr).map(|_| (rng_next(&mut seed) >> 33) as u8));
            // moderate factors
            let half = if ttype == TYPE_Q4_K { [1, 3] } else { [209, 209] };
            blob[at + half[0]] = 0x0c;
            blob[at + half[1]] = 0x08;
        }
        m
    };
    let layers = (0..2u64)
        .map(|i| qwen::Layer {
            attn_norm: wave(c.d, 10 * i),
            ffn_norm: wave(c.d, 10 * i + 1),
            q_norm: wave(c.hd, 10 * i + 2),
            k_norm: wave(c.hd, 10 * i + 3),
            wq: place(c.nh * c.hd, TYPE_Q4_K),
            wk: place(c.nkv * c.hd, TYPE_Q4_K),
            wv: place(c.nkv * c.hd, TYPE_Q6_K),
            wo: place(c.d, TYPE_Q4_K),
            gate_inp: wave(c.ne * c.d, 10 * i + 4),
            gate: place(c.ne * c.ffexp, TYPE_Q4_K),
            up: place(c.ne * c.ffexp, TYPE_Q4_K),
            down: place(c.ne * c.d, TYPE_Q6_K),
        })
        .collect();
    let m = qwen_pass::Model {
        layers,
        out_norm: wave(c.d, 30),
        head: place(c.nvocab, TYPE_Q6_K),
        embed: place(c.nvocab, TYPE_Q4_K),
        eps: Single(1e-6),
        turns: wave(MAXSEQ * c.hd, 31),
        grain,
    };
    (m, blob)
}

/// What a unit of a phase sees of the buffers.
fn qwen_view<'a>(
    mem: &'a Memory,
    phase: Phase,
    own: &'a [Single],
) -> qwen_pass::Shared<'a, Single> {
    let reals = |s: Store| -> &'a [Single] {
        if qwen_fills(phase, s) { &[] } else { &mem.reals[s as usize] }
    };
    let levels = |s: Store| -> &'a [i8] {
        if qwen_fills(phase, s) { &[] } else { &mem.levels[s as usize] }
    };
    let sums = |s: Store| -> &'a [i32] {
        if qwen_fills(phase, s) { &[] } else { &mem.sums[s as usize] }
    };
    qwen_pass::Shared {
        own,
        stream: reals(Store::Stream),
        squares: reals(Store::Squares),
        normed: reals(Store::Normed),
        levels: levels(Store::Levels),
        scales: reals(Store::Scales),
        sums: sums(Store::Sums),
        queries: reals(Store::Queries),
        values: reals(Store::Values),
        key_cache: reals(Store::KeyCache),
        value_cache: reals(Store::ValueCache),
        mixed: reals(Store::Mixed),
        mixed_levels: levels(Store::MixedLevels),
        mixed_scales: reals(Store::MixedScales),
        mixed_sums: sums(Store::MixedSums),
        hidden: reals(Store::Hidden),
        hidden_levels: levels(Store::HiddenLevels),
        hidden_scales: reals(Store::HiddenScales),
        hidden_sums: sums(Store::HiddenSums),
    }
}

/// A pass unit by unit; `order` says in which order the units of a phase come.
fn qwen_by_units(
    m: &qwen_pass::Model<Single>,
    c: &Cfg,
    blob: &[u8],
    mem: &mut Memory,
    tok: u32,
    pos: usize,
    order: &dyn Fn(usize) -> Vec<usize>,
) -> u32 {
    let mut chosen: (Vec<usize>, Vec<Single>) = (Vec::new(), Vec::new());
    let mut k = 0;
    while let Some(step) = qwen_step(k, c.nl) {
        let phase = step.phase;
        if qwen_work(phase, 0, (0, 0)).before == Before::Choose {
            chosen = choose_experts(&bits(&mem.reals[Store::Router as usize]), c.topk);
        }
        let items = qwen_items(phase, c, m.grain);
        let norm = matches!(phase, Phase::AttnNorm | Phase::FfnNorm | Phase::HeadNorm);
        let squares = &mem.reals[Store::Squares as usize];
        let inv = if norm { m.inverse(squares, c.d) } else { Single(0.0) };
        let mut units: Vec<(usize, (usize, usize))> = Vec::new();
        for wid in 0..even::NT {
            let run = even::sl(wid, items);
            let work = qwen_work(phase, wid, run);
            assert_eq!(work.best, phase == Phase::Head);
            units.extend((work.from..work.to).map(|it| (it, run)));
        }
        for u in order(units.len()) {
            let (it, run) = units[u];
            let spans = qwen_targets(phase, c, m.grain, step.layer, pos, it);
            if phase == Phase::Head {
                let scores = m.scores(c, blob, &qwen_view(mem, phase, &[]), run);
                mem.bests[spans[0].at] = pack_best(best_from(&bits(&scores), run.0));
                continue;
            }
            let t = qwen_pass::Turn { tok, pos, top: &chosen.0, weights: &chosen.1, run };
            let rewrites = matches!(phase, Phase::Rope | Phase::Project | Phase::Down);
            // every unit sees what the units before it have left
            let own = if rewrites { mem.at(&spans[0]) } else { &[] };
            let view = qwen_view(mem, phase, own);
            let out = m.unit(c, blob, phase, step.layer, &t, &view, inv, it);
            assert_eq!(out.len(), spans.len());
            for (span, piece) in spans.iter().zip(&out) {
                mem.put(span, piece);
            }
        }
        k += 1;
    }
    merge_best(&mem.bests)
}

/// The levels, scales and sums of a vector, by the grain.
fn quantized(x: &[Single], grain: Grain) -> (Vec<i8>, Vec<Single>, Vec<i32>) {
    let w = grain.levels();
    let (mut q, mut s) = (Vec::new(), Vec::new());
    for at in (0..x.len()).step_by(w) {
        let (levels, scale) = quant_run(x, at, w);
        q.extend(levels);
        s.push(scale);
    }
    let sums = block_sums(&q);
    (q, s, sums)
}

/// The same pass stage by stage, with caches by layer.
fn qwen_by_stages(
    m: &qwen_pass::Model<Single>,
    c: &Cfg,
    blob: &[u8],
    kc: &mut [Vec<Single>],
    vc: &mut [Vec<Single>],
    tok: usize,
    pos: usize,
) -> u32 {
    let g = m.grain;
    let norm = |x: &[Single], w: &[Single]| -> Vec<Single> {
        let parts: Vec<Single> = (0..even::NT)
            .map(|t| {
                let (a, b) = even::sl(t, c.d);
                x[a..b].iter().fold(Single(0.0), |s, v| s.mul_plus(*v, *v))
            })
            .collect();
        norm_run_of_parts(x, &parts, m.eps, w, 0, c.d)
    };
    let row = m.embed.off + tok * m.embed.bpr;
    let mut x: Vec<Single> =
        (0..c.d / 256).flat_map(|sb| dequant_q4k(&blob[row + 144 * sb..])).collect();
    for (il, l) in m.layers.iter().enumerate() {
        let (xq, xs, xm) = quantized(&norm(&x, &l.attn_norm), g);
        let (mut q, mut k, mut v) = (Vec::new(), Vec::new(), Vec::new());
        for r in 0..c.nh * c.hd + 2 * c.nkv * c.hd {
            let (p, _, value) = l.qkv(c, blob, r, &xq, &xs, &xm, g);
            match p {
                Projection::Query => q.push(value),
                Projection::Key => k.push(value),
                Projection::Value => v.push(value),
            }
        }
        let half = c.hd / 2;
        for h in 0..c.nh {
            qwen::head_norm_rope(&mut q, h * c.hd, half, &l.q_norm, m.eps, &m.turns, pos * c.hd);
        }
        for h in 0..c.nkv {
            qwen::head_norm_rope(&mut k, h * c.hd, half, &l.k_norm, m.eps, &m.turns, pos * c.hd);
        }
        kc[il].extend(k);
        vc[il].extend(v);
        let mut mixed = Vec::new();
        for h in 0..c.nh {
            mixed.extend(attend(c, h, &q, &kc[il], &vc[il], 0, pos));
        }
        let (aq, s, sm) = quantized(&mixed, g);
        x = (0..c.d).map(|r| l.project(c, blob, r, x[r], &aq, &s, &sm, g)).collect();
        let xn = norm(&x, &l.ffn_norm);
        let logits: Vec<Single> = (0..c.ne).map(|e| l.route(c, e, &xn)).collect();
        let (top, weights): (Vec<usize>, Vec<Single>) = choose_experts(&bits(&logits), c.topk);
        let (xq, xs, xm) = quantized(&xn, g);
        let hidden: Vec<Single> = (0..c.topk * c.ffexp)
            .map(|it| {
                let (a, b) = l.gate_up(c, blob, it, &top, &xq, &xs, &xm, g);
                silu(a, b)
            })
            .collect();
        let (hq, hs, hm) = quantized(&hidden, g);
        x = (0..c.d)
            .map(|r| l.down(c, blob, r, x[r], &top, &weights, &hq, &hs, &hm, g))
            .collect();
    }
    let (xq, xs, xm) = quantized(&norm(&x, &m.out_norm), g);
    let logits: Vec<Single> =
        (0..c.nvocab).map(|r| m.head.dot(blob, r, &xq, &xs, &xm, g)).collect();
    assert!(logits.iter().all(|l| l.0.is_finite()));
    greedy(&bits(&logits))
}

#[test]
fn units_of_a_normalized_pass_make_up_the_pass() {
    let c = qwen_sizes();
    for grain in [Grain::Block, Grain::Split, Grain::Super] {
        let (m, blob) = qwen_model(&c, grain);
        assert!(m.fit(&c, blob.len()) && !m.fit(&c, blob.len() - 1));
        assert!(!m.fit(&Cfg { d: 128, ..c }, blob.len()));
        let room = |s: Store| qwen_room(s, &c, grain);
        let (mut there, mut back) = (Memory::new(&room), Memory::new(&room));
        let (mut kc, mut vc) = (vec![Vec::new(); 2], vec![Vec::new(); 2]);
        for (pos, tok) in [4usize, 1, 1].into_iter().enumerate() {
            let t = tok as u32;
            let got = qwen_by_units(&m, &c, &blob, &mut there, t, pos, &|n| (0..n).collect());
            qwen_by_units(&m, &c, &blob, &mut back, t, pos, &|n| (0..n).rev().collect());
            assert_eq!(got, qwen_by_stages(&m, &c, &blob, &mut kc, &mut vc, tok, pos));
            assert!(there == back, "the order of the units matters");
            let cached = &there.reals[Store::KeyCache as usize][..kc[0].len()];
            assert_eq!(cached, &kc[0][..]);
        }
    }
}
