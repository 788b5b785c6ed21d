//! Norms, softmaxes, activations, quantization and sampling, on floats and on
//! integers.
use cpubrrr::activation::{activate, activated, silu, swiglu};
use cpubrrr::analytic::Analytic;
use cpubrrr::attend::{attend, attend_with_sink, scale_for};
use cpubrrr::attention::{head_mix, head_mix_in_order, head_scores, head_scores_in_order};
use cpubrrr::config::Cfg;
use cpubrrr::dense::{rope, rope_init};
use cpubrrr::norm::{inverse_rms, norm_run, norm_run_of_parts};
use cpubrrr::partition::chunk;
use cpubrrr::q8::Q8Mat;
use cpubrrr::quantize::{quant_i8, quant_rows, quant_run, run_scale};
use cpubrrr::qwen::head_norm_rope;
use cpubrrr::rng::{rng_next, DEFAULT_STATE};
use cpubrrr::sampling::{choose_by_exps, choose_experts, draw, expert_exps, sample_logits};
use cpubrrr::scalar::Scalar;
use cpubrrr::select::{greedy, top_k};
use cpubrrr::softmax::{exps_below, greatest, shares, total};
use cpubrrr::yarn::stretched;

#[derive(Clone, Copy, Debug, PartialEq)]
struct Single(f32);

impl Scalar for Single {
    fn zero_spec() -> Single {
        unreachable!()
    }
    fn of_int_spec(_: i64) -> Single {
        unreachable!()
    }
    fn of_bits_spec(_: u32) -> Single {
        unreachable!()
    }
    fn plus_spec(self, _: Single) -> Single {
        unreachable!()
    }
    fn minus_spec(self, _: Single) -> Single {
        unreachable!()
    }
    fn times_spec(self, _: Single) -> Single {
        unreachable!()
    }
    fn mul_plus_spec(self, _: Single, _: Single) -> Single {
        unreachable!()
    }
    fn fma_spec(self, _: Single, _: Single) -> Single {
        unreachable!()
    }
    fn zero() -> Single {
        Single(0.0)
    }
    fn of_int(n: i64) -> Single {
        Single(n as f32)
    }
    fn of_bits(bits: u32) -> Single {
        Single(f32::from_bits(bits))
    }
    fn plus(self, y: Single) -> Single {
        Single(self.0 + y.0)
    }
    fn minus(self, y: Single) -> Single {
        Single(self.0 - y.0)
    }
    fn times(self, y: Single) -> Single {
        Single(self.0 * y.0)
    }
    fn mul_plus(self, a: Single, b: Single) -> Single {
        Single(self.0 + a.0 * b.0)
    }
    fn fma(self, a: Single, b: Single) -> Single {
        Single(a.0.mul_add(b.0, self.0))
    }
}

impl Analytic for Single {
    fn over_spec(self, _: Single) -> Single {
        unreachable!()
    }
    fn larger_spec(self, _: Single) -> Single {
        unreachable!()
    }
    fn smaller_spec(self, _: Single) -> Single {
        unreachable!()
    }
    fn clamped_spec(self, _: Single, _: Single) -> Single {
        unreachable!()
    }
    fn magnitude_spec(self) -> Single {
        unreachable!()
    }
    fn exp_spec(self) -> Single {
        unreachable!()
    }
    fn root_spec(self) -> Single {
        unreachable!()
    }
    fn level_spec(self) -> i8 {
        unreachable!()
    }
    fn at_most_spec(self, _: Single) -> bool {
        unreachable!()
    }
    fn over(self, y: Single) -> Single {
        Single(self.0 / y.0)
    }
    fn larger(self, y: Single) -> Single {
        Single(self.0.max(y.0))
    }
    fn smaller(self, y: Single) -> Single {
        Single(self.0.min(y.0))
    }
    fn clamped(self, low: Single, high: Single) -> Single {
        Single(self.0.clamp(low.0, high.0))
    }
    fn magnitude(self) -> Single {
        Single(self.0.abs())
    }
    fn exp(self) -> Single {
        Single(self.0.exp())
    }
    fn root(self) -> Single {
        Single(self.0.sqrt())
    }
    fn level(self) -> i8 {
        self.0.round().clamp(-127.0, 127.0) as i8
    }
    fn at_most(self, y: Single) -> bool {
        self.0 <= y.0
    }
}

fn singles(v: &[f32]) -> Vec<Single> {
    v.iter().map(|&x| Single(x)).collect()
}

fn floats(v: &[Single]) -> Vec<f32> {
    v.iter().map(|x| x.0).collect()
}

fn bits(v: &[f32]) -> Vec<u32> {
    v.iter().map(|x| x.to_bits()).collect()
}

/// Numbers between -2 and 2 that repeat late.
fn wave(n: usize, seed: u64) -> Vec<f32> {
    let mut s = DEFAULT_STATE ^ seed;
    (0..n).map(|_| ((rng_next(&mut s) >> 40) as f32 / 4194304.0) - 2.0).collect()
}

#[test]
fn integers_have_whole_results() {
    assert_eq!((7.over(2), (-7).over(2), 7.over(-2), (-7).over(-2)), (3, -3, -3, 3));
    assert_eq!((5.over(0), i32::MIN.over(-1)), (0, i32::MIN));
    assert_eq!((3.larger(5), 3.smaller(5), 9.clamped(-7, 7), (-9).clamped(-7, 7)), (5, 3, 7, -7));
    assert_eq!(((-4).magnitude(), i32::MIN.magnitude()), (4, i32::MIN));
    for n in -2i32..=21 {
        assert_eq!(n.exp(), (n as f64).exp().floor() as i32);
    }
    assert_eq!(22.exp(), i32::MAX);
    for (n, r) in [(-1, 0), (0, 0), (1, 1), (3, 1), (4, 2), (99, 9), (100, 10), (i32::MAX, 46340)] {
        assert_eq!(n.root(), r);
    }
    assert_eq!((300.level(), (-300).level(), (-5).level()), (127, -127, -5));
    assert!(3.at_most(3) && !4.at_most(3));
}

#[test]
fn softmax_parts() {
    let v = singles(&[1.0, 3.0, 2.0]);
    assert_eq!(greatest(Single(-1.0), &v), Single(3.0));
    assert_eq!(greatest(Single(5.0), &v), Single(5.0));
    assert_eq!(total(Single(0.5), &v), Single(6.5));
    let e = exps_below(&v, Single(3.0));
    assert_eq!(e, singles(&[(-2f32).exp(), 1.0, (-1f32).exp()]));
    let sum = (-2f32).exp() + 1.0 + (-1f32).exp();
    assert_eq!(shares(&e), singles(&[e[0].0 / sum, e[1].0 / sum, e[2].0 / sum]));
    assert_eq!(shares::<Single>(&[]), vec![]);
    assert_eq!(shares(&[6, 3, 1]), vec![0, 0, 0]);
}

#[test]
fn the_peak_of_a_run_gets_the_last_level() {
    let x = singles(&[9.0, 0.5, -2.0, 1.0]);
    let (q, s) = quant_run(&x, 1, 3);
    assert_eq!(s, Single(2.0 / 127.0));
    // 31.75 and 63.5 levels; halves go away from zero
    assert_eq!(q, vec![32, -127, 64]);
    assert_eq!(run_scale(&x, 0, 0), Single(1e-12 / 127.0));
    let (q, s) = quant_run(&singles(&[0.0; 4]), 0, 4);
    assert_eq!((q, s), (vec![0; 4], Single(1e-12 / 127.0)));
}

#[test]
fn vectors_are_quantized_in_blocks() {
    let mut v = wave(70, 3);
    v[40] = 100.0;
    let x = singles(&v);
    let (q, s) = quant_i8(&x);
    assert_eq!((q.len(), s.len()), (70, 2));
    for b in 0..2 {
        let peak = v[32 * b..32 * b + 32].iter().fold(1e-12f32, |m, a| m.max(a.abs()));
        assert_eq!(s[b].0, peak / 127.0);
        for i in 32 * b..32 * b + 32 {
            assert_eq!(q[i], (v[i] / s[b].0).round() as i8);
        }
    }
    // the rest is no whole block
    assert_eq!(q[64..], [0; 6]);
}

#[test]
fn matrices_are_quantized_run_by_run() {
    let (rows, cols, at) = (5, 64, 3);
    let mut blob = vec![0u8; at];
    let values: Vec<f32> =
        wave(rows * cols, 9).iter().map(|v| f32::from_bits(v.to_bits() & 0xffff_0000)).collect();
    for v in &values {
        blob.extend(((v.to_bits() >> 16) as u16).to_le_bytes());
    }
    let m: Q8Mat<Single> = Q8Mat::from_bf16(&blob, at, rows, cols);
    assert_eq!((m.q.len(), m.s.len(), m.cols), (rows * cols, rows * 2, cols));
    for r in 0..rows {
        let (q, s) = quant_i8(&singles(&values[r * cols..(r + 1) * cols]));
        assert_eq!(m.q[r * cols..(r + 1) * cols], q[..]);
        assert_eq!(m.s[2 * r..2 * r + 2], s[..]);
    }
    let (mut q, mut s) = quant_rows::<Single>(&blob, at, 0, 2, cols);
    let (q1, s1) = quant_rows::<Single>(&blob, at, 2, rows, cols);
    q.extend(q1);
    s.extend(s1);
    assert!(q == m.q && s == m.s);
}

#[test]
fn norms_have_mean_square_one() {
    let x = singles(&[3.0, -4.0, 0.0, 5.0]);
    let w = singles(&[1.0, 2.0, 1.0, 1.0]);
    let inv = 1.0 / (50f32 / 4.0 + 1e-5).sqrt();
    assert_eq!(inverse_rms(Single(50.0), 4, Single(1e-5)), Single(inv));
    assert_eq!(floats(&norm_run(&x, Single(1e-5), &w, 1, 4)), vec![-4.0 * inv * 2.0, 0.0, 5.0 * inv]);
    // two workers have summed 25 each
    let parts = singles(&[25.0, 25.0]);
    let all = norm_run_of_parts(&x, &parts, Single(1e-5), &w, 0, 4);
    assert_eq!(all[1..], norm_run(&x, Single(1e-5), &w, 1, 4)[..]);
    assert_eq!(norm_run(&[30, 40], 1, &[2, 3], 0, 2), vec![0, 0]);
}

#[test]
fn runs_of_a_norm_make_up_the_norm() {
    let (x, w) = (singles(&wave(50, 8)), singles(&wave(50, 9)));
    let whole = norm_run(&x, Single(1e-5), &w, 0, 50);
    for workers in [1, 3, 7, 12, 64] {
        let parts: Vec<Single> = (0..workers)
            .filter_map(|t| chunk(50, workers, t))
            .flat_map(|(a, b)| norm_run(&x, Single(1e-5), &w, a, b))
            .collect();
        assert_eq!(parts, whole);
    }
}

#[test]
fn heads_are_normalized_before_they_turn() {
    let (half, at) = (2, 1);
    let v = wave(6, 5);
    let w = singles(&wave(4, 6));
    let turns = singles(&[0.6, 1.0, 0.8, 0.0]);
    let table = rope_init(&turns, half, 1);
    let mut got = singles(&v);
    head_norm_rope(&mut got, at, half, &w, Single(1e-6), &table, 0);
    let squares = v[1..5].iter().fold(0f32, |s, a| s + a * a);
    let inv = 1.0 / (squares / 4.0 + 1e-6).sqrt();
    let n: Vec<f32> = (0..4).map(|i| v[1 + i] * inv * w[i].0).collect();
    let want = [n[0] * 0.6 - n[2] * 0.8, n[1], n[2] * 0.6 + n[0] * 0.8, n[3]];
    assert_eq!((got[0].0, got[5].0), (v[0], v[5]));
    for i in 0..4 {
        assert!((got[1 + i].0 - want[i]).abs() < 1e-6);
    }
}

#[test]
fn activations_are_gated() {
    let gate = |g: f32, u: f32| {
        let (x, y) = (g.min(7.0), u.clamp(-7.0, 7.0));
        (x / (1.0 + (-1.702 * x).exp())) * (y + 1.0)
    };
    for (g, u) in [(0.5, 0.25), (9.0, 8.0), (-9.0, -8.0), (0.0, 3.0), (7.0, -1.0)] {
        assert_eq!(swiglu(Single(g), Single(u)).0, gate(g, u));
        assert_eq!(silu(Single(g), Single(u)).0, (g / (1.0 + (-g).exp())) * u);
    }
    // two rows of one block each: the gates of a row, then the other operands
    let v = wave(128, 8);
    let gu = singles(&v);
    let h: Vec<f32> = (0..32).map(|k| gate(v[64 + k], v[96 + k])).collect();
    let want = quant_run(&singles(&h), 0, 32);
    assert_eq!(activated(&gu, 64, 96), want);
    let (a, q, s) = activate(&gu, 1, 1, 2);
    assert_eq!((a.gate, a.up, a.out, a.scale), (64, 96, 32, 1));
    assert_eq!((q, s), want);
}

fn sizes() -> Cfg {
    Cfg {
        nl: 2,
        d: 64,
        nh: 4,
        nkv: 2,
        hd: 16,
        ne: 3,
        topk: 2,
        swa: 3,
        nvocab: 5,
        blocks: 2,
        ffexp: 64,
        bpr: 34,
    }
}

#[test]
fn heads_take_values_by_their_scores() {
    let c = sizes();
    let pos = 5;
    let room = (pos + 1) * c.nkv * c.hd;
    let (kc, vc) = (singles(&wave(7 + room, 1)), singles(&wave(7 + room, 2)));
    let q = singles(&wave(c.nh * c.hd, 3));
    let scale: Single = scale_for(c.hd);
    assert_eq!(scale.0, 0.25);
    let (h, kvh, base) = (3, 1, 7);
    for (layer, start) in [(0, 3), (1, 0)] {
        let sink = Single(0.75);
        let scores = head_scores(&kc, base, &q, h, kvh, c.nkv, c.hd, start, pos, scale);
        let top = scores.iter().fold(sink.0, |m, s| m.max(s.0));
        let mut sum = (sink.0 - top).exp();
        let e: Vec<Single> = scores.iter().map(|s| Single((s.0 - top).exp())).collect();
        for x in &e {
            sum += x.0;
        }
        let want = head_mix(&vc, base, &e, kvh, c.nkv, c.hd, start, pos, Single(1.0 / sum));
        assert_eq!(attend_with_sink(&c, layer, h, &q, &kc, &vc, base, pos, sink), want);
    }
    let scores = head_scores_in_order(&kc, base, &q, h, kvh, c.nkv, c.hd, pos, scale);
    let top = scores.iter().fold(f32::MIN, |m, s| m.max(s.0));
    let e: Vec<Single> = scores.iter().map(|s| Single((s.0 - top).exp())).collect();
    let sum = e.iter().fold(0f32, |t, x| t + x.0);
    let mixed = head_mix_in_order(&vc, base, &e, kvh, c.nkv, c.hd, pos);
    let want: Vec<Single> = mixed.iter().map(|m| Single(m.0 / sum)).collect();
    assert_eq!(attend(&c, h, &q, &kc, &vc, base, pos), want);
}

#[test]
fn chosen_experts_share_one() {
    let scores = [0.5f32, 2.0, -1.0, 2.5];
    let (top, weights): (Vec<usize>, Vec<Single>) = choose_experts(&bits(&scores), 2);
    assert_eq!(top, vec![3, 1]);
    let e = (-0.5f32).exp();
    assert_eq!(floats(&weights), vec![1.0 / (1.0 + e), e / (1.0 + e)]);
    let (none, _) = choose_experts::<Single>(&bits(&scores), 0);
    assert_eq!(none, vec![]);
}

#[test]
fn experts_share_a_softmax_over_all() {
    let scores = [0.5f32, 2.0, -1.0, 2.5, 2.0];
    let exps: Vec<Single> = expert_exps(&bits(&scores));
    let want: Vec<f32> = scores.iter().map(|s| (s - 2.5).exp()).collect();
    assert_eq!(floats(&exps), want);
    let (top, weights): (Vec<usize>, Vec<Single>) = choose_by_exps(&bits(&want), 3);
    assert_eq!(top, vec![3, 1, 4]);
    let all = want.iter().fold(0f32, |t, e| t + e);
    let chosen = want[3] + want[1] + want[4];
    let share = |e: f32| e / all / (chosen / all);
    assert_eq!(floats(&weights), vec![share(want[3]), share(want[1]), share(want[4])]);
    let (none, no_weights) = choose_by_exps::<Single>(&bits(&want), 0);
    assert!(none.is_empty() && no_weights.is_empty());
}

#[test]
fn draw_takes_the_first_that_reaches() {
    let parts = singles(&[0.5, 0.25, 0.25]);
    assert_eq!(draw(&parts, Single(0.5)), 0);
    assert_eq!(draw(&parts, Single(0.51)), 1);
    assert_eq!(draw(&parts, Single(0.99)), 2);
    assert_eq!(draw(&parts, Single(1.5)), 2);
}

#[test]
fn sampling_depends_on_the_temperature() {
    let logits = [1.0f32, 2.0, 0.5, 1.75];
    let b = bits(&logits);
    let mut state = 77;
    assert_eq!(sample_logits::<Single>(&b, 0, 40, &mut state), greedy(&b));
    assert_eq!(state, 77);
    // one candidate leaves nothing to chance
    assert_eq!(sample_logits::<Single>(&b, 700, 0, &mut state), 1);
    let mut moved = 77;
    rng_next(&mut moved);
    assert_eq!(state, moved);
    let mut seen = [0; 4];
    for _ in 0..200 {
        let mut next = state;
        let r = (rng_next(&mut next) >> 11) as f32 / (1u64 << 53) as f32;
        let top = top_k(&b, 3);
        let e: Vec<f32> = top.iter().map(|t| ((f32::from_bits(t.0) - 2.0) / 0.7).exp()).collect();
        let sum = e[0] + e[1] + e[2];
        let mut acc = 0f32;
        let mut want = top[2].1;
        for i in 0..3 {
            acc += e[i] / sum;
            if r <= acc {
                want = top[i].1;
                break;
            }
        }
        assert_eq!(sample_logits::<Single>(&b, 700, 3, &mut state), want);
        assert_eq!(state, next);
        seen[want as usize] += 1;
    }
    assert!(seen[1] > seen[3] && seen[3] > seen[0] && seen[0] > 0 && seen[2] == 0);
    // equal states give equal tokens
    let (mut a, mut z) = (5, 5);
    let many = bits(&wave(100, 4));
    for _ in 0..20 {
        let t = sample_logits::<Single>(&many, 1000, 1000, &mut a);
        assert_eq!(sample_logits::<Single>(&many, 1000, 64, &mut z), t);
    }
}

#[test]
fn a_token_is_drawn_where_a_score_is_no_number() {
    let nan = f32::NAN;
    for logits in [vec![nan], vec![nan; 5], vec![1.0, nan, 3.0, nan, 2.0], vec![0.5, 0.25, nan]] {
        let b = bits(&logits);
        for topk in [1, 2, 40] {
            let (mut state, mut moved) = (99, 99);
            rng_next(&mut moved);
            let token = sample_logits::<Single>(&b, 800, topk, &mut state);
            assert!((token as usize) < logits.len());
            assert_eq!(state, moved);
        }
    }
}

#[test]
fn levels_stay_within_127() {
    let x = singles(&[f32::NAN, f32::INFINITY, -3.0e38, 1.0]);
    let (q, _) = quant_run(&x, 0, 4);
    assert!(q.iter().all(|&l| l >= -127));
    for seed in 0..20 {
        let (q, _) = quant_i8(&singles(&wave(64, seed)));
        assert!(q.iter().all(|&l| l >= -127) && q.iter().any(|&l| l == 127 || l == -127));
    }
}

#[test]
fn table_turns_are_turns_by_their_angles() {
    let (half, n) = (3, 4);
    let turns = singles(&wave(n * 2 * half, 12));
    let table = rope_init(&turns, half, n);
    for pos in 0..n {
        let v = singles(&wave(8, 13));
        let mut got = v.clone();
        rope(&mut got, 1, half, &table, pos * 2 * half);
        assert_eq!((got[0], got[7]), (v[0], v[7]));
        for k in 0..half {
            let (c, s) = (turns[pos * 2 * half + k].0, turns[pos * 2 * half + half + k].0);
            let (a, b) = (v[1 + k].0, v[1 + half + k].0);
            assert_eq!(got[1 + k].0, a * c - b * s);
            assert_eq!(got[1 + half + k].0, b * c + a * s);
        }
    }
}

#[test]
fn slow_angles_are_stretched() {
    let (low, high) = (Single(8.0), Single(18.0));
    let theta = |i: usize| stretched(Single(6.4), i, low, high).0;
    assert_eq!((theta(0), theta(8)), (6.4, 6.4));
    assert_eq!((theta(18), theta(31)), (0.2, 0.2));
    let mix = 1.0 - 0.5f32;
    assert_eq!(theta(13), 6.4f32 / 32.0 * (1.0 - mix) + 6.4 * mix);
    // bounds that meet are kept apart
    assert_eq!(stretched(Single(6.4), 9, low, low).0, 0.2);
}
