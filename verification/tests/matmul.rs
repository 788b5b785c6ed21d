//! Every matrix product against the plain one.
use cpubrrr::gemm::{
    gemm, gemm_rows, gemm_threaded, matmul_blocked, matmul_ikj, matmul_naive, pack_a, pack_b,
    row_band,
};
use cpubrrr::sme::{sme_gemm, sme_gemm_v2, sme_gemm_v3, traced_matmul};

fn fill(n: usize, seed: i32) -> Vec<i32> {
    (0..n as i32).map(|i| (i.wrapping_mul(31).wrapping_add(seed)) % 17 - 8).collect()
}

fn plain(a: &[i32], b: &[i32], m: usize, n: usize, k: usize) -> Vec<i32> {
    let mut c = vec![0i32; m * n];
    for i in 0..m {
        for j in 0..n {
            c[i * n + j] = (0..k).map(|p| a[i * k + p] * b[p * n + j]).sum();
        }
    }
    c
}

#[test]
fn products_agree() {
    let (m, n, k) = (24, 16, 70);
    let (a, b) = (fill(m * k, 1), fill(k * n, 2));
    let want = plain(&a, &b, m, n, k);
    let mut c = vec![5i32; m * n];
    matmul_naive(&a, &b, &mut c, m, n, k);
    assert_eq!(c, want);
    let mut c = vec![5i32; m * n];
    matmul_ikj(&a, &b, &mut c, m, n, k);
    assert_eq!(c, want);
    let mut c = vec![5i32; m * n];
    matmul_blocked(&a, &b, &mut c, m, n, k);
    assert_eq!(c, want);
    let mut c = vec![5i32; m * n];
    gemm(&a, &b, &mut c, m, n, k);
    assert_eq!(c, want);
}

#[test]
fn blocks_beyond_one_panel_agree() {
    let (m, n, k) = (136, 24, 600);
    let (a, b) = (fill(m * k, 3), fill(k * n, 4));
    let want = plain(&a, &b, m, n, k);
    let mut c = vec![0i32; m * n];
    gemm(&a, &b, &mut c, m, n, k);
    assert_eq!(c, want);
    let mut c = vec![0i32; m * n];
    gemm_rows(&a, &b, &mut c, m, n, k, 8, 24);
    for i in 0..m * n {
        let row = i / n;
        assert_eq!(c[i], if row >= 8 && row < 24 { want[i] } else { 0 });
    }
}

#[test]
fn threaded_product_covers_every_row() {
    // twelve bands of sixteen rows would end at row 192
    let (m, n, k) = (200, 8, 9);
    let (a, b) = (fill(m * k, 5), fill(k * n, 6));
    let want = plain(&a, &b, m, n, k);
    for threads in [1, 3, 12, usize::MAX] {
        let mut c = vec![0i32; m * n];
        gemm_threaded(&a, &b, &mut c, m, n, k, threads);
        assert_eq!(c, want);
    }
}

#[test]
fn bands_meet_and_end_at_the_last_row() {
    for (m, workers) in [(200usize, 12usize), (8, 12), (64, 3), (16, 1)] {
        let mut next = 0;
        for t in 0..workers {
            if let Some((a, b)) = row_band(m, workers, t) {
                assert_eq!(a, next);
                assert!(a < b && b <= m && a % 8 == 0);
                next = b;
            }
        }
        assert_eq!(next, m);
    }
}

#[test]
fn packed_panels_hold_eight_lanes_and_zeros() {
    let a = fill(10 * 3, 7);
    let mut out = vec![9i32; 2 * 4096];
    pack_a(&a, 3, 10, 3, &mut out);
    assert_eq!(out[0], a[0]);
    assert_eq!(out[1], a[3]);
    assert_eq!(out[8], a[1]);
    assert_eq!(out[4096], a[8 * 3]);
    assert_eq!(out[4096 + 2], 0);
    let b = fill(3 * 10, 8);
    let mut out = vec![9i32; 2 * 4096];
    pack_b(&b, 10, 3, 10, &mut out);
    assert_eq!(out[0], b[0]);
    assert_eq!(out[1], b[1]);
    assert_eq!(out[8], b[10]);
    assert_eq!(out[4096], b[8]);
    assert_eq!(out[4096 + 2], 0);
}

#[test]
fn tiled_products_agree() {
    let (m, n, k) = (64, 32, 24);
    let (a, b) = (fill(m * k, 9), fill(k * n, 10));
    let want = plain(&a, &b, m, n, k);
    for threads in [1, 2, 4] {
        let mut c = vec![1i32; m * n];
        sme_gemm(&a, &b, &mut c, m, n, k, threads);
        assert_eq!(c, want);
        let mut c = vec![1i32; m * n];
        sme_gemm_v2(&a, &b, &mut c, m, n, k, threads);
        assert_eq!(c, want);
        let mut c = vec![1i32; m * n];
        sme_gemm_v3(&a, &b, &mut c, m, n, k, threads);
        assert_eq!(c, want);
    }
}

#[test]
fn traced_product_adds_two_outer_products() {
    let mut a = vec![0i32; 32];
    let mut b = vec![0i32; 32];
    for i in 0..16 {
        a[i] = i as i32;
        b[i] = 1;
        a[16 + i] = 2;
        b[16 + i] = i as i32;
    }
    let (first, second) = traced_matmul(&a, &b);
    for i in 0..16 {
        for j in 0..16 {
            assert_eq!(first[i * 16 + j], i as i32);
            assert_eq!(second[i * 16 + j], (i + 2 * j) as i32);
        }
    }
}
