//! Quantized formats against plain dequantization.
use cpubrrr::half::{bf16_to_f32_bits, half_to_f32_bits, read_half};
use cpubrrr::kmat::{Grain, KMat, TYPE_Q4_K, TYPE_Q6_K};
use cpubrrr::lanes::Chain;
use cpubrrr::mxfp4::{
    deq_expert, dot4_mx_i8, dot_mxfp4_i8, exp_tbl, matvec_mxfp4_i8, mx_lookup, repack_mx,
};
use cpubrrr::q4k::{
    dequant_q4k, get_scale_min_k4, q4k_dot, q4k_dot2_smmla, q4k_dot_int, q4k_dot_split, q4k_gu,
    scale_min_k4, smmla, unpack_k4,
};
use cpubrrr::q6k::{dequant_q6k, q6k_dot, q6k_dot_int, q6k_dot_split, q6k_unpack};
use cpubrrr::q8::{block_sums, dot_q8_i8, dot_q8_i8_split, Q8Mat};
use cpubrrr::scalar::Scalar;

/// A number that hardly rounds.
#[derive(Clone, Copy, PartialEq, Debug)]
struct Num(f64);

impl Scalar for Num {
    fn zero_spec() -> Num {
        Num::zero()
    }
    fn of_int_spec(n: i64) -> Num {
        Num::of_int(n)
    }
    fn of_bits_spec(bits: u32) -> Num {
        Num::of_bits(bits)
    }
    fn plus_spec(self, y: Num) -> Num {
        self.plus(y)
    }
    fn minus_spec(self, y: Num) -> Num {
        self.minus(y)
    }
    fn times_spec(self, y: Num) -> Num {
        self.times(y)
    }
    fn mul_plus_spec(self, a: Num, b: Num) -> Num {
        self.mul_plus(a, b)
    }
    fn fma_spec(self, a: Num, b: Num) -> Num {
        self.fma(a, b)
    }
    fn zero() -> Num {
        Num(0.0)
    }
    fn of_int(n: i64) -> Num {
        Num(n as f64)
    }
    fn of_bits(bits: u32) -> Num {
        Num(f32::from_bits(bits) as f64)
    }
    fn plus(self, y: Num) -> Num {
        Num(self.0 + y.0)
    }
    fn minus(self, y: Num) -> Num {
        Num(self.0 - y.0)
    }
    fn times(self, y: Num) -> Num {
        Num(self.0 * y.0)
    }
    fn mul_plus(self, a: Num, b: Num) -> Num {
        Num(self.0 + a.0 * b.0)
    }
    fn fma(self, a: Num, b: Num) -> Num {
        Num(a.0.mul_add(b.0, self.0))
    }
}

fn near(got: Num, want: f64) -> bool {
    (got.0 - want).abs() <= 1e-9 * want.abs().max(1.0)
}

fn bytes(n: usize, seed: u32) -> Vec<u8> {
    let mut s = seed;
    (0..n)
        .map(|_| {
            s = s.wrapping_mul(1664525).wrapping_add(1013904223);
            (s >> 24) as u8
        })
        .collect()
}

fn levels(n: usize, seed: u32) -> Vec<i8> {
    bytes(n, seed).iter().map(|&b| (b as i32 % 255 - 127) as i8).collect()
}

#[test]
fn half_values_widen_exactly() {
    let cases: [(u16, f32); 9] = [
        (0x0000, 0.0),
        (0x3c00, 1.0),
        (0xbc00, -1.0),
        (0x3555, 0.333251953125),
        (0x7bff, 65504.0),
        (0x0400, 0.00006103515625),
        (0x0001, 0.000000059604644775390625),
        (0x03ff, 0.000060975551605224609375),
        (0xc000, -2.0),
    ];
    for (h, v) in cases {
        assert_eq!(f32::from_bits(half_to_f32_bits(h)), v);
    }
    assert_eq!(half_to_f32_bits(0x8000), 0x8000_0000);
    assert_eq!(half_to_f32_bits(0x7c00), 0x7f80_0000);
    assert_eq!(half_to_f32_bits(0xfc00), 0xff80_0000);
    assert!(f32::from_bits(half_to_f32_bits(0x7e00)).is_nan());
}

#[test]
fn half_is_read_low_byte_first() {
    let b = [0x00u8, 0x3c, 0xff];
    assert_eq!(f32::from_bits(read_half(&b, 0)), 1.0);
    assert_eq!(f32::from_bits(bf16_to_f32_bits(0x3f80)), 1.0);
    assert_eq!(f32::from_bits(bf16_to_f32_bits(0xc0a0)), -5.0);
}

#[test]
fn scales_and_minima_unpack() {
    let q: [u8; 12] = [0xc1, 0x42, 0x83, 0x04, 0xc5, 0x46, 0x87, 0x08, 0x21, 0x43, 0x65, 0x87];
    assert_eq!(scale_min_k4(0, &q), (1, 5));
    assert_eq!(scale_min_k4(1, &q), (2, 6));
    assert_eq!(scale_min_k4(3, &q), (4, 8));
    // sub-block 4: low nibble of byte 8 with the top bits of byte 0 and byte 4
    assert_eq!(scale_min_k4(4, &q), (0x1 | 0x30, 0x2 | 0x30));
    assert_eq!(scale_min_k4(5, &q), (0x3 | 0x10, 0x4 | 0x10));
    let (sc, mn) = unpack_k4(&q);
    for j in 0..8 {
        assert_eq!(scale_min_k4(j, &q), (sc[j], mn[j]));
        assert_eq!(get_scale_min_k4(j, &q), (sc[j], mn[j]));
    }
}

fn q4k_row(cols: usize, seed: u32) -> Vec<u8> {
    let mut row = bytes(cols / 256 * 144, seed);
    for sb in 0..cols / 256 {
        // finite scales
        row[sb * 144 + 1] = 0x2c;
        row[sb * 144 + 3] = 0x28;
    }
    row
}

/// A dequantized row, straight from the layout.
fn q4k_plain(row: &[u8], cols: usize) -> Vec<f64> {
    let mut out = Vec::new();
    for sb in 0..cols / 256 {
        let b = &row[sb * 144..(sb + 1) * 144];
        let d = f32::from_bits(half_to_f32_bits(u16::from_le_bytes([b[0], b[1]]))) as f64;
        let dmin = f32::from_bits(half_to_f32_bits(u16::from_le_bytes([b[2], b[3]]))) as f64;
        for l in 0..256 {
            let (sc, mn) = scale_min_k4(l / 32, &b[4..16]);
            let byte = b[16 + l / 64 * 32 + l % 32];
            let code = if l % 64 < 32 { byte & 15 } else { byte >> 4 };
            out.push(d * sc as f64 * code as f64 - dmin * mn as f64);
        }
    }
    out
}

/// Scales of the activations.
fn scales(n: usize) -> Vec<Num> {
    (0..n).map(|i| Num(0.25 + i as f64)).collect()
}

#[test]
fn q4k_rows_give_the_plain_product() {
    let cols = 512;
    let row = q4k_row(cols, 7);
    let x = levels(cols, 9);
    let plain = q4k_plain(&row, cols);
    let xsum = block_sums(&x);
    let xs = scales(cols / 32);
    let want: f64 = (0..cols).map(|l| plain[l] * x[l] as f64 * xs[l / 32].0).sum();
    assert!(near(q4k_dot(&row, &x, &xs, &xsum, cols), want));
    let ys = scales(2);
    let want: f64 = (0..cols).map(|l| plain[l] * x[l] as f64 * ys[l / 256].0).sum();
    assert!(near(q4k_dot_int(&row, &x, &ys, &xsum, cols), want));
}

#[test]
fn q4k_two_rows_at_once_have_the_values_of_each() {
    let cols = 768;
    let (r0, r1) = (q4k_row(cols, 21), q4k_row(cols, 22));
    let x = levels(cols, 23);
    let xsum = block_sums(&x);
    let ys = scales(3);
    let (a, b) = q4k_dot2_smmla(&r0, &r1, &x, &ys, &xsum, cols);
    assert_eq!(a, q4k_dot_int(&r0, &x, &ys, &xsum, cols));
    assert_eq!(b, q4k_dot_int(&r1, &x, &ys, &xsum, cols));
    assert_ne!(a, b);
}

#[test]
fn q4k_gate_and_up_have_the_values_of_each() {
    let cols = 256;
    let (g, u) = (q4k_row(cols, 31), q4k_row(cols, 32));
    let x = levels(cols, 33);
    let (xs, xsum) = (scales(8), block_sums(&x));
    let (a, b) = q4k_gu(&g, &u, &x, &xs, &xsum, cols);
    assert!(near(a, q4k_dot(&g, &x, &xs, &xsum, cols).0));
    assert!(near(b, q4k_dot(&u, &x, &xs, &xsum, cols).0));
    // each row by itself
    assert_eq!(a, q4k_gu(&g, &g, &x, &xs, &xsum, cols).1);
    assert_eq!(b, q4k_gu(&u, &u, &x, &xs, &xsum, cols).0);
    assert_ne!(a, b);
}

#[test]
fn q4k_dequantizes_to_the_plain_values() {
    let b = q4k_row(256, 41);
    let plain = q4k_plain(&b, 256);
    let w: Vec<Num> = dequant_q4k(&b);
    assert_eq!(w.len(), 256);
    for l in 0..256 {
        assert_eq!(w[l].0, plain[l]);
    }
}

#[test]
fn smmla_multiplies_two_by_eight() {
    let a: Vec<i8> = (1..=16).collect();
    let b: Vec<i8> = (0..16).map(|i| if i < 8 { 1 } else { -2 }).collect();
    // rows sum to 36 and 100
    assert_eq!(smmla((1, 2, 3, 4), &a, &b), (37, -70, 103, -196));
}

#[test]
fn q6k_unpacks_and_multiplies() {
    let cols = 512;
    let mut row = bytes(cols / 256 * 210, 51);
    row[209] = 0x24;
    row[419] = 0x24;
    let x = levels(cols, 52);
    let (xs, ys) = (scales(cols / 32), scales(2));
    let (mut by_block, mut by_super) = (0f64, 0f64);
    for sb in 0..2 {
        let b = &row[sb * 210..(sb + 1) * 210];
        let d = f32::from_bits(half_to_f32_bits(u16::from_le_bytes([b[208], b[209]]))) as f64;
        let t = q6k_unpack(b);
        let plain: Vec<Num> = dequant_q6k(b);
        for l in 0..256 {
            let (h, r) = (l / 128, l % 128);
            let lo = b[h * 64 + r % 64];
            let four = if r < 64 { lo & 15 } else { lo >> 4 };
            let two = (b[128 + h * 32 + r % 32] >> (2 * (r / 32))) & 3;
            let code = (four | (two << 4)) as i64 - 32;
            assert_eq!(t[l] as i64, code);
            let w = d * (b[192 + l / 16] as i8 as f64) * code as f64;
            assert_eq!(plain[l].0, w);
            let k = sb * 256 + l;
            by_block += w * x[k] as f64 * xs[k / 32].0;
            by_super += w * x[k] as f64 * ys[sb].0;
        }
    }
    assert!(near(q6k_dot(&row, &x, &xs, cols), by_block));
    assert!(near(q6k_dot_int(&row, &x, &ys, cols), by_super));
}

#[test]
fn k_quant_matrices_choose_by_type() {
    let cols = 256;
    let mut blob = vec![9u8; 5];
    blob.extend(q4k_row(cols, 61));
    blob.extend(q4k_row(cols, 62));
    let x = levels(cols, 63);
    let (xs, xsum) = (scales(8), block_sums(&x));
    let m = KMat::new(5, TYPE_Q4_K, cols).unwrap();
    assert_eq!(m.bpr, 144);
    assert!(m.fits(blob.len(), 2, cols));
    assert!(!m.fits(blob.len(), 3, cols) && !m.fits(blob.len(), 2, 512));
    assert_eq!(m.row_start(&blob, 1), 149);
    let got = m.dot(&blob, 1, &x, &xs, &xsum, Grain::Block);
    assert_eq!(got, q4k_dot(&blob[149..], &x, &xs, &xsum, cols));
    let got = m.dot(&blob, 1, &x, &xs, &xsum, Grain::Split);
    assert_eq!(got, q4k_dot_split(&blob[149..], &x, &xs, &xsum, cols));
    let got = m.dot(&blob, 1, &x, &xs[..1], &xsum, Grain::Super);
    assert_eq!(got, q4k_dot_int(&blob[149..], &x, &xs, &xsum, cols));
    assert_eq!((Grain::Split.levels(), Grain::Super.levels()), (32, 256));
    let mut six = bytes(210, 64);
    six[209] = 0x24;
    let m = KMat::new(0, TYPE_Q6_K, cols).unwrap();
    assert_eq!(m.bpr, 210);
    assert_eq!(m.dot(&six, 0, &x, &xs, &xsum, Grain::Block), q6k_dot(&six, &x, &xs, cols));
    let got = m.dot(&six, 0, &x, &xs, &xsum, Grain::Split);
    assert_eq!(got, q6k_dot_split(&six, &x, &xs, cols));
    assert_eq!(m.dot(&six, 0, &x, &xs, &xsum, Grain::Super), q6k_dot_int(&six, &x, &xs, cols));
    assert_eq!(KMat::new(0, 8, cols).err().unwrap().ttype, 8);
}

#[test]
fn four_bit_floats_have_their_values() {
    let want: [i8; 16] = [0, 1, 2, 3, 4, 6, 8, 12, 0, -1, -2, -3, -4, -6, -8, -12];
    for c in 0..16u8 {
        assert_eq!(mx_lookup(c), want[c as usize]);
    }
    // the table holds doubled values, so the exponent's bias is one more
    let table: Vec<Num> = exp_tbl();
    assert_eq!(table.len(), 256);
    for (e, v) in table.iter().enumerate() {
        assert_eq!(v.0, 2f64.powi(e as i32 - 128));
    }
}

/// The powers of the exponent bytes.
fn powers() -> Vec<Num> {
    exp_tbl()
}

/// Random blocks with moderate exponents.
fn mx_blocks(n: usize, seed: u32) -> Vec<u8> {
    let mut raw = bytes(n * 17, seed);
    for b in 0..n {
        raw[b * 17] = 120 + (b % 9) as u8;
    }
    raw
}

#[test]
fn repacked_quads_have_the_values_of_the_raw_rows() {
    let (rows, blocks) = (8, 3);
    let raw = mx_blocks(rows * blocks, 71);
    let x = levels(blocks * 32, 72);
    let (xs, pow) = (scales(blocks), powers());
    let m = repack_mx(&raw, rows, blocks);
    let plain = deq_expert(&raw, 0, rows, blocks, &pow);
    assert_eq!(plain.len(), rows * blocks * 32);
    for q in 0..2 {
        let quad = dot4_mx_i8(&m.nib, &m.exps, q, &x, &xs, blocks, &pow);
        for r in 0..4 {
            let row = 4 * q + r;
            assert_eq!(quad[r], dot_mxfp4_i8(&raw, row, &x, &xs, blocks, &pow));
            let w = &plain[row * blocks * 32..(row + 1) * blocks * 32];
            let want: f64 = (0..blocks * 32).map(|c| w[c].0 * x[c] as f64 * xs[c / 32].0).sum();
            assert!(near(quad[r], want));
        }
    }
    // the second of two experts of four rows, with one scale and biases
    let bias = scales(4);
    let all = matvec_mxfp4_i8(&raw, 1, 4, &x, Num(0.5), &bias, 4, blocks, &pow);
    let second = deq_expert(&raw, 1, 4, blocks, &pow);
    for r in 0..4 {
        let w = &second[r * blocks * 32..(r + 1) * blocks * 32];
        assert_eq!(w[7], plain[(4 + r) * blocks * 32 + 7]);
        let want: f64 = (0..blocks * 32).map(|c| w[c].0 * x[c] as f64).sum();
        assert!(near(all[r], 0.5 * want + bias[r].0));
    }
}

#[test]
fn low_nibbles_come_before_high_ones() {
    let mut raw = vec![0u8; 17];
    raw[0] = 130;
    raw[1] = 0x71;
    let mut x = vec![0i8; 32];
    x[0] = 10;
    x[16] = 100;
    let v = dot_mxfp4_i8(&raw, 0, &x, &[Num(1.0)], 1, &powers());
    assert_eq!(v, Num(4.0 * (10.0 + 12.0 * 100.0)));
}

#[test]
fn eight_bit_rows_multiply() {
    let m = Q8Mat { q: levels(4 * 96, 81), s: scales(12), cols: 96 };
    let x = levels(96, 82);
    let xs = scales(3);
    for r in 0..4 {
        let want: f64 = (0..96)
            .map(|c| {
                m.q[r * 96 + c] as f64 * m.s[r * 3 + c / 32].0 * x[c] as f64 * xs[c / 32].0
            })
            .sum();
        let got = m.dot(r, &x, &xs, Chain::Single);
        assert!(near(got, want));
        assert_eq!(got, dot_q8_i8(&m.q, r * 96, &m.s, r * 3, &x, &xs, 96));
        let got = m.dot(r, &x, &xs, Chain::Split);
        assert!(near(got, want));
        assert_eq!(got, dot_q8_i8_split(&m.q, r * 96, &m.s, r * 3, &x, &xs, 96));
    }
    assert_eq!(block_sums(&[1i8; 70]), vec![32, 32]);
}
