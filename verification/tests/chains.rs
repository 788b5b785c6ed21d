//! The order in which rows of blocks are added up, in single precision.
use cpubrrr::half::half_to_f32_bits;
use cpubrrr::lanes::Chain;
use cpubrrr::q4k::{q4k_dot, q4k_dot_split, q4k_gu, scale_min_k4};
use cpubrrr::q6k::{q6k_dot, q6k_dot_split, q6k_unpack};
use cpubrrr::q8::{block_sums, dot_q8_i8, dot_q8_i8_split, Q8Mat};
use cpubrrr::scalar::Scalar;

#[derive(Clone, Copy, PartialEq, Debug)]
struct Single(f32);

impl Scalar for Single {
    fn zero_spec() -> Single {
        unreachable!()
    }
    fn of_int_spec(_: i64) -> Single {
        unreachable!()
    }
    fn of_bits_spec(_: u32) -> Single {
        unreachable!()
    }
    fn plus_spec(self, _: Single) -> Single {
        unreachable!()
    }
    fn minus_spec(self, _: Single) -> Single {
        unreachable!()
    }
    fn times_spec(self, _: Single) -> Single {
        unreachable!()
    }
    fn mul_plus_spec(self, _: Single, _: Single) -> Single {
        unreachable!()
    }
    fn fma_spec(self, _: Single, _: Single) -> Single {
        unreachable!()
    }
    fn zero() -> Single {
        Single(0.0)
    }
    fn of_int(n: i64) -> Single {
        Single(n as f32)
    }
    fn of_bits(bits: u32) -> Single {
        Single(f32::from_bits(bits))
    }
    fn plus(self, y: Single) -> Single {
        Single(self.0 + y.0)
    }
    fn minus(self, y: Single) -> Single {
        Single(self.0 - y.0)
    }
    fn times(self, y: Single) -> Single {
        Single(self.0 * y.0)
    }
    fn mul_plus(self, a: Single, b: Single) -> Single {
        Single(self.0 + a.0 * b.0)
    }
    fn fma(self, a: Single, b: Single) -> Single {
        Single(a.0.mul_add(b.0, self.0))
    }
}

fn bytes(n: usize, seed: u32) -> Vec<u8> {
    let mut s = seed;
    (0..n)
        .map(|_| {
            s = s.wrapping_mul(1664525).wrapping_add(1013904223);
            (s >> 24) as u8
        })
        .collect()
}

fn levels(n: usize, seed: u32) -> Vec<i8> {
    bytes(n, seed).iter().map(|&b| (b as i32 % 255 - 127) as i8).collect()
}

fn scales(n: usize, seed: u32) -> Vec<Single> {
    bytes(n, seed).iter().map(|&b| Single(0.001 + b as f32 / 300.0)).collect()
}

fn half(b: &[u8], at: usize) -> f32 {
    f32::from_bits(half_to_f32_bits(u16::from_le_bytes([b[at], b[at + 1]])))
}

/// Four integer sums: lane `l` takes four products of each sixteen.
fn four(w: &[i32], x: &[i8]) -> [f32; 4] {
    let mut lanes = [0i32; 4];
    for (i, v) in w.iter().enumerate() {
        lanes[i % 16 / 4] += v * x[i] as i32;
    }
    lanes.map(|v| v as f32)
}

fn grow(acc: &mut [f32; 4], lanes: [f32; 4], factor: f32) {
    for l in 0..4 {
        acc[l] = lanes[l].mul_add(factor, acc[l]);
    }
}

fn both(a: [f32; 4], b: [f32; 4]) -> [f32; 4] {
    [a[0] + b[0], a[1] + b[1], a[2] + b[2], a[3] + b[3]]
}

fn across(a: [f32; 4]) -> f32 {
    (a[0] + a[1]) + (a[2] + a[3])
}

#[test]
fn odd_blocks_have_a_chain_of_their_own() {
    // lane 0 holds 2^24, to which each 1 is lost; two of them together are not
    let (mut w, mut x) = (vec![0i8; 128], vec![0i8; 128]);
    (w[0], x[0]) = (4, 4);
    (w[32], x[32]) = (1, 1);
    (w[96], x[96]) = (1, 1);
    let one = Single(1.0);
    let (ws, xs) = ([Single(1048576.0), one, one, one], [one; 4]);
    assert_eq!(dot_q8_i8(&w, 0, &ws, 0, &x, &xs, 128), Single(16777216.0));
    assert_eq!(dot_q8_i8_split(&w, 0, &ws, 0, &x, &xs, 128), Single(16777218.0));
    let m = Q8Mat { q: w, s: ws.to_vec(), cols: 128 };
    assert_eq!(m.dot(0, &x, &xs, Chain::Single), Single(16777216.0));
    assert_eq!(m.dot(0, &x, &xs, Chain::Split), Single(16777218.0));
}

#[test]
fn eight_bit_rows_are_added_in_two_chains() {
    // five blocks: the last one has no partner
    let (w, x) = (levels(160, 1), levels(160, 2));
    let (ws, xs) = (scales(5, 3), scales(5, 4));
    let mut acc = [[0f32; 4]; 2];
    for b in 0..5 {
        let wide: Vec<i32> = w[32 * b..32 * b + 32].iter().map(|&v| v as i32).collect();
        grow(&mut acc[b % 2], four(&wide, &x[32 * b..]), ws[b].0 * xs[b].0);
    }
    let want = across(both(acc[0], acc[1]));
    assert_eq!(dot_q8_i8_split(&w, 0, &ws, 0, &x, &xs, 160), Single(want));
    let ints = |n| (1..=n).collect::<Vec<i32>>();
    let (a, b) = (ints(5), ints(5));
    assert_eq!(dot_q8_i8_split(&w, 0, &a, 0, &x, &b, 160), dot_q8_i8(&w, 0, &a, 0, &x, &b, 160));
}

fn q4k_row(cols: usize, seed: u32) -> Vec<u8> {
    let mut row = bytes(cols / 256 * 144, seed);
    for sb in 0..cols / 256 {
        row[sb * 144 + 1] = 0x2c;
        row[sb * 144 + 3] = 0x28;
    }
    row
}

/// Even and odd sub-blocks in two chains, the minima in pairs. `first` forms the
/// factors of a super-block before the activation's scale comes in.
fn q4k_in_chains(row: &[u8], x: &[i8], xs: &[Single], xsum: &[i32], cols: usize, first: bool) -> f32 {
    let mut acc = [[0f32; 4]; 2];
    let mut low = 0f32;
    for sb in 0..cols / 256 {
        let b = &row[sb * 144..sb * 144 + 144];
        let (d, dmin) = (half(b, 0), half(b, 2));
        for jj in 0..4 {
            let mut lows = [0f32; 2];
            for odd in 0..2 {
                let j = 2 * jj + odd;
                let blk = sb * 8 + j;
                let (sc, mn) = scale_min_k4(j, &b[4..16]);
                let code = |i: usize| {
                    let v = b[16 + 32 * jj + i];
                    (if odd == 0 { v & 15 } else { v >> 4 }) as i32
                };
                let w: Vec<i32> = (0..32).map(code).collect();
                let (s, m, xb) = (sc as f32, mn as f32, xs[blk].0);
                let (factor, less) =
                    if first { (xb * (d * s), xb * (dmin * m)) } else { (xb * d * s, xb * dmin * m) };
                grow(&mut acc[odd], four(&w, &x[32 * blk..]), factor);
                lows[odd] = less * xsum[blk] as f32;
            }
            low += lows[0] + lows[1];
        }
    }
    let joined = both(acc[0], acc[1]);
    let zero = [0f32; 4];
    across(if first { both(joined, both(zero, zero)) } else { joined }) - low
}

#[test]
fn gate_and_up_rows_are_added_in_two_chains() {
    let cols = 512;
    let (g, u, x) = (q4k_row(cols, 11), q4k_row(cols, 12), levels(cols, 13));
    let (xs, xsum) = (scales(16, 14), block_sums(&x));
    let (a, b) = q4k_gu(&g, &u, &x, &xs, &xsum, cols);
    assert_eq!(a, Single(q4k_in_chains(&g, &x, &xs, &xsum, cols, false)));
    assert_eq!(b, Single(q4k_in_chains(&u, &x, &xs, &xsum, cols, false)));
    let plain = q4k_dot(&g, &x, &xs, &xsum, cols);
    assert!(a != plain && (a.0 - plain.0).abs() <= 1e-3 * plain.0.abs());
}

#[test]
fn four_bit_rows_are_added_in_two_chains() {
    let cols = 512;
    let (row, x) = (q4k_row(cols, 21), levels(cols, 23));
    let (xs, xsum) = (scales(16, 24), block_sums(&x));
    let got = q4k_dot_split(&row, &x, &xs, &xsum, cols);
    assert_eq!(got, Single(q4k_in_chains(&row, &x, &xs, &xsum, cols, true)));
    let plain = q4k_dot(&row, &x, &xs, &xsum, cols);
    assert!((got.0 - plain.0).abs() <= 1e-3 * plain.0.abs());
}

#[test]
fn six_bit_rows_are_added_in_four_chains() {
    let cols = 512;
    let mut row = bytes(cols / 256 * 210, 31);
    (row[209], row[419]) = (0x24, 0x24);
    let (x, xs) = (levels(cols, 32), scales(16, 33));
    let mut f = [[0f32; 4]; 4];
    for sb in 0..2 {
        let b = &row[sb * 210..sb * 210 + 210];
        let (d, t) = (half(b, 208), q6k_unpack(b));
        for s in 0..16 {
            let blk = sb * 8 + s / 2;
            let w: Vec<i32> = (0..16).map(|i| t[16 * s + i] as i32).collect();
            let factor = xs[blk].0 * d * (b[192 + s] as i8 as f32);
            grow(&mut f[s % 4], four(&w, &x[32 * blk + s % 2 * 16..]), factor);
        }
    }
    let want = across(both(both(f[0], f[1]), both(f[2], f[3])));
    let got = q6k_dot_split(&row, &x, &xs, cols);
    assert_eq!(got, Single(want));
    let plain = q6k_dot(&row, &x, &xs, cols);
    assert!((got.0 - plain.0).abs() <= 1e-3 * plain.0.abs().max(1.0));
}
