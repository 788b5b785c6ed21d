//! Rows and products on 32-bit integers, whose arithmetic does not round.
use cpubrrr::gemm::{gemm, matmul_ikj};
use cpubrrr::mxfp4::{deq_expert, dot4_mx_i8, dot_mxfp4_i8, matvec_mxfp4_i8, repack_mx};
use cpubrrr::q4k::{q4k_dot, q4k_dot_split, q4k_gu};

fn bytes(n: usize, step: usize) -> Vec<u8> {
    (0..n).map(|i| (i * step + i / 7 + 3) as u8).collect()
}

fn levels(n: usize) -> Vec<i8> {
    (0..n).map(|i| ((i * 11 + 5) % 255) as u8 as i8).collect()
}

#[test]
fn mxfp4_rows_are_their_dequantized_weights() {
    let (rows, blocks) = (8, 3);
    let raw = bytes(rows * blocks * 17, 29);
    let x = levels(32 * blocks);
    let xs: Vec<i32> = vec![3, -2, 5];
    let pow: Vec<i32> = (0..256).map(|e| e - 100).collect();
    let weights: Vec<i32> = deq_expert(&raw, 0, rows, blocks, &pow);
    let quads = repack_mx(&raw, rows, blocks);
    let bias: Vec<i32> = (0..rows as i32).map(|r| 1000 * r - 7).collect();
    let plain = matvec_mxfp4_i8(&raw, 0, rows, &x, 9, &bias, rows, blocks, &pow);
    for r in 0..rows {
        let row = &weights[r * 32 * blocks..(r + 1) * 32 * blocks];
        let want: i32 = (0..32 * blocks).map(|j| row[j] * xs[j / 32] * x[j] as i32).sum();
        assert!(want != 0);
        assert_eq!(dot_mxfp4_i8(&raw, r, &x, &xs, blocks, &pow), want);
        let four = dot4_mx_i8(&quads.nib, &quads.exps, r / 4, &x, &xs, blocks, &pow);
        assert_eq!(four[r % 4], want);
        let sum: i32 = (0..32 * blocks).map(|j| row[j] * x[j] as i32).sum();
        assert_eq!(plain[r], sum * 9 + bias[r]);
    }
}

#[test]
fn q4k_orders_agree_for_any_sums() {
    let cols = 512;
    let (g, u) = (bytes(2 * 144, 31), bytes(2 * 144, 37));
    let x = levels(cols);
    let xs: Vec<i32> = (0..16).map(|i| 7 * i - 40).collect();
    // not the sums of the activations
    let xsum: Vec<i32> = (0..16).map(|i| i * i * 1234567 - 99).collect();
    let (a, b) = q4k_gu(&g, &u, &x, &xs, &xsum, cols);
    assert_eq!(a, q4k_dot(&g, &x, &xs, &xsum, cols));
    assert_eq!(b, q4k_dot(&u, &x, &xs, &xsum, cols));
    assert_eq!(a, q4k_dot_split(&g, &x, &xs, &xsum, cols));
    assert_eq!(b, q4k_dot_split(&u, &x, &xs, &xsum, cols));
    assert!(a != b);
}

#[test]
fn plain_and_packed_products_agree() {
    let (m, n, k) = (8, 16, 600);
    let a: Vec<i32> = (0..m * k).map(|i| (i % 41) as i32 * 100_003).collect();
    let b: Vec<i32> = (0..k * n).map(|i| (i % 37) as i32 * 70_001 - 9).collect();
    let (mut c, mut e) = (vec![1i32; m * n], vec![2i32; m * n]);
    matmul_ikj(&a, &b, &mut c, m, n, k);
    gemm(&a, &b, &mut e, m, n, k);
    assert_eq!(c, e);
    let want = (0..k).fold(0i32, |t, p| t.wrapping_add(a[2 * k + p].wrapping_mul(b[p * n + 5])));
    assert_eq!(c[2 * n + 5], want);
}
