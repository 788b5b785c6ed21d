//! Dense steps and attention on integers, where every order of sums agrees.
use cpubrrr::attention::{
    cache_at, cache_write, dot_lanes, head_mix, head_mix_in_order, head_scores,
    head_scores_in_order, kv_head, window_start, MAXSEQ,
};
use cpubrrr::dense::{
    add_products, add_scaled, matvec, matvec_bias_last, rmsnorm, rope, rope_init,
    sum_squares,
};
use cpubrrr::q8::dot_q8_i8;
use cpubrrr::scalar::{wrapped, wrapped_product, Scalar};
use cpubrrr::tensors::dot_bf16;

fn fill(n: usize, seed: i32) -> Vec<i32> {
    (0..n as i32).map(|i| (i * 37 + seed) % 13 - 6).collect()
}

fn dot(a: &[i32], b: &[i32]) -> i32 {
    a.iter().zip(b).map(|(x, y)| x * y).sum()
}

#[test]
fn matrix_times_vector_adds_the_bias() {
    let (w, x, b) = (fill(3 * 5, 1), fill(5, 2), fill(3, 3));
    let want: Vec<i32> = (0..3).map(|r| b[r] + dot(&w[r * 5..r * 5 + 5], &x)).collect();
    assert_eq!(matvec(&w, &x, &b, 3, 5), want);
    assert_eq!(matvec_bias_last(&w, &x, &b, 3, 5), want);
    assert_eq!(add_products(7, &w, 2, &x, 1, 3), 7 + dot(&w[2..5], &x[1..4]));
}

/// A number that rounds.
#[derive(Clone, Copy, PartialEq, Debug)]
struct Rounded(f32);

impl Scalar for Rounded {
    fn zero_spec() -> Rounded {
        Rounded::zero()
    }
    fn of_int_spec(n: i64) -> Rounded {
        Rounded::of_int(n)
    }
    fn of_bits_spec(bits: u32) -> Rounded {
        Rounded::of_bits(bits)
    }
    fn plus_spec(self, y: Rounded) -> Rounded {
        self.plus(y)
    }
    fn minus_spec(self, y: Rounded) -> Rounded {
        self.minus(y)
    }
    fn times_spec(self, y: Rounded) -> Rounded {
        self.times(y)
    }
    fn mul_plus_spec(self, a: Rounded, b: Rounded) -> Rounded {
        self.mul_plus(a, b)
    }
    fn fma_spec(self, a: Rounded, b: Rounded) -> Rounded {
        self.fma(a, b)
    }
    fn zero() -> Rounded {
        Rounded(0.0)
    }
    fn of_int(n: i64) -> Rounded {
        Rounded(n as f32)
    }
    fn of_bits(bits: u32) -> Rounded {
        Rounded(f32::from_bits(bits))
    }
    fn plus(self, y: Rounded) -> Rounded {
        Rounded(self.0 + y.0)
    }
    fn minus(self, y: Rounded) -> Rounded {
        Rounded(self.0 - y.0)
    }
    fn times(self, y: Rounded) -> Rounded {
        Rounded(self.0 * y.0)
    }
    fn mul_plus(self, a: Rounded, b: Rounded) -> Rounded {
        Rounded(self.0 + a.0 * b.0)
    }
    fn fma(self, a: Rounded, b: Rounded) -> Rounded {
        Rounded(a.0.mul_add(b.0, self.0))
    }
}

#[test]
fn bias_is_added_first_or_last() {
    // the sum of the products rounds differently with a large bias in front
    let (w, x) = (vec![Rounded(1.0); 2], vec![Rounded(0.75); 2]);
    let b = [Rounded(16777216.0)];
    assert_eq!(matvec(&w, &x, &b, 1, 2), vec![Rounded(16777216.0)]);
    assert_eq!(matvec_bias_last(&w, &x, &b, 1, 2), vec![Rounded(16777218.0)]);
}

#[test]
fn norms_weigh_each_number() {
    let x = [1, -2, 3, 4];
    assert_eq!(sum_squares(&x, 0, 4), 30);
    assert_eq!(sum_squares(&x, 1, 3), 13);
    assert_eq!(sum_squares(&x, 2, 2), 0);
    assert_eq!(rmsnorm(&x, 10, &[1, 2, 3, 4], 1, 4), vec![-40, 90, 160]);
}

#[test]
fn residuals_are_added_in_place() {
    let mut x = vec![1, 2, 3, 4];
    add_scaled(&mut x, 1, 10, &[5, 6, 7], 1, 2);
    assert_eq!(x, vec![1, 62, 73, 4]);
}

#[test]
fn rotation_turns_pairs() {
    // cosine 0, sine 1 for the first pair; cosine 1, sine 0 for the second
    let table = [9, 9, 0, 1, 1, 0];
    let mut v = vec![100, 1, 2, 3, 4, 200];
    rope(&mut v, 1, 2, &table, 2);
    assert_eq!(v, vec![100, -3, 2, 1, 4, 200]);
}

#[test]
fn rotation_table_pairs_cosines_with_sines() {
    let turns: Vec<i32> = vec![1, 2, 11, 12, 3, 4, 13, 14];
    assert_eq!(rope_init(&turns, 2, 2), vec![1, 11, 2, 12, 3, 13, 4, 14]);
    assert_eq!(rope_init::<i32>(&[], 2, 0), vec![]);
}

#[test]
fn products_wrap() {
    assert_eq!(wrapped_product(65536, 65536), 0);
    assert_eq!(wrapped_product(-2147483648, -1), -2147483648);
    assert_eq!(wrapped_product(46341, 46341), 46341i32.wrapping_mul(46341));
    assert_eq!(wrapped(0x1_8000_0000), -2147483648);
    assert_eq!(wrapped(-1), -1);
    let whole = |v: f32| i32::of_bits(v.to_bits());
    assert_eq!((whole(1.702), whole(-7.9), whole(0.999), whole(-0.5)), (1, -7, 0, 0));
    assert_eq!((whole(16777215.0), whole(33554432.0), whole(2e9)), (16777215, 33554432, 2000000000));
    assert_eq!((whole(1e20), whole(-1e20)), (2147483647, -2147483647));
}

#[test]
fn windows_alternate_with_the_layers() {
    assert_eq!(window_start(0, 500, 128), 373);
    assert_eq!(window_start(0, 127, 128), 0);
    assert_eq!(window_start(0, 128, 128), 1);
    assert_eq!(window_start(1, 500, 128), 0);
    assert_eq!(window_start(2, 500, 1 << 30), 0);
    assert_eq!(window_start(4, 9, 1), 9);
}

#[test]
fn query_heads_share_in_groups() {
    assert_eq!((0..64).map(|h| kv_head(h, 64, 8)).filter(|&k| k == 3).count(), 8);
    assert_eq!(kv_head(24, 64, 8), 3);
    assert_eq!(kv_head(31, 64, 8), 3);
    assert_eq!(kv_head(63, 64, 8), 7);
}

#[test]
fn cache_places_do_not_overlap() {
    let (nl, nkv, hd) = (2, 2, 3);
    let mut seen = std::collections::HashSet::new();
    for l in 0..nl {
        for t in [0, 1, MAXSEQ - 1] {
            for k in 0..nkv {
                let at = cache_at(nl, l, t, k, nkv, hd);
                assert!(at + hd <= nl * MAXSEQ * nkv * hd);
                for j in 0..hd {
                    assert!(seen.insert(at + j));
                }
            }
        }
    }
    let mut cache = vec![0; 8];
    cache_write(&mut cache, 3, &[7, 8, 9, 10], 1, 3);
    assert_eq!(cache, vec![0, 0, 0, 8, 9, 10, 0, 0]);
}

#[test]
fn scores_and_mixes_follow_the_cache() {
    let (nkv, hd, pos) = (2, 16, 4);
    let base = 5;
    let kc = fill(base + (pos + 1) * nkv * hd, 1);
    let vc = fill(base + (pos + 1) * nkv * hd, 2);
    let q = fill(4 * hd, 3);
    let (h, kvh) = (3, 1);
    let at = |t: usize| base + (t * nkv + kvh) * hd;
    let qh = &q[h * hd..(h + 1) * hd];
    let want: Vec<i32> = (0..=pos).map(|t| 3 * dot(&kc[at(t)..at(t) + hd], qh)).collect();
    assert_eq!(head_scores_in_order(&kc, base, &q, h, kvh, nkv, hd, pos, 3), want);
    assert_eq!(head_scores(&kc, base, &q, h, kvh, nkv, hd, 2, pos, 3), want[2..].to_vec());
    assert_eq!(dot_lanes(&kc, at(0), &q, h * hd, hd), dot(&kc[at(0)..at(0) + hd], qh));
    let w = fill(pos + 1, 4);
    let mixed: Vec<i32> =
        (0..hd).map(|j| (0..=pos).map(|t| w[t] * vc[at(t) + j]).sum()).collect();
    assert_eq!(head_mix_in_order(&vc, base, &w, kvh, nkv, hd, pos), mixed);
    let late: Vec<i32> =
        (0..hd).map(|j| 2 * (2..=pos).map(|t| w[t] * vc[at(t) + j]).sum::<i32>()).collect();
    assert_eq!(head_mix(&vc, base, &w[2..], kvh, nkv, hd, 2, pos, 2), late);
}

#[test]
fn lanes_are_added_by_columns() {
    // one large number in a lane: the small ones meet it in the last additions
    let mut k = vec![Rounded(1.0); 16];
    let q = vec![Rounded(1.0); 16];
    k[0] = Rounded(16777216.0);
    // column 0 is (2^24 + 1) + (1 + 1), the others are 4
    assert_eq!(dot_lanes(&k, 0, &q, 0, 16), Rounded(16777216.0 + 2.0 + 4.0 + 8.0));
}

#[test]
fn blocks_are_added_in_four_lanes() {
    // lane 0 holds 2^24, to which its own 1 is lost; the other lanes hold 1 each
    let (mut w, mut x) = (vec![0i8; 64], vec![0i8; 64]);
    (w[0], x[0]) = (4, 4);
    for l in 0..4 {
        (w[32 + 4 * l], x[32 + 4 * l]) = (1, 1);
    }
    let (ws, xs) = ([Rounded(1048576.0), Rounded(1.0)], [Rounded(1.0); 2]);
    assert_eq!(dot_q8_i8(&w, 0, &ws, 0, &x, &xs, 64), Rounded(16777218.0));
    // on integers every order agrees
    assert_eq!(dot_q8_i8(&w, 0, &[1048576, 1], 0, &x, &[1, 1], 64), 16777220);
}

#[test]
fn short_floats_multiply_by_eights() {
    // 1, 2, 3, ... as 16-bit floats, least significant byte first, after one odd byte
    let mut blob = vec![7u8];
    for i in 1..=17 {
        blob.extend(((i as f32).to_bits() >> 16).to_le_bytes()[..2].iter());
    }
    let x: Vec<Rounded> = (0..17).map(|i| Rounded(i as f32 - 3.0)).collect();
    let want: f32 = (0..16).map(|i| (i as f32 + 1.0) * (i as f32 - 3.0)).sum();
    assert_eq!(dot_bf16(&blob, 1, &x, 17), Rounded(want));
    assert_eq!(dot_bf16(&blob, 1, &x, 7), Rounded(0.0));
}
