//! Four-bit integer products against the plain product.
use cpubrrr::q4::{
    dot_row_q4, gemv_q4, gemv_q4_v2, gemv_q4_v3, gemv_q4_v4, pack_q4, pack_q4_quad, sum_x,
};

fn data(rows: usize, d: usize) -> (Vec<i8>, Vec<i8>) {
    let w = (0..rows * d).map(|i| ((i * 7 + 3) % 15) as i8 - 7).collect();
    let x = (0..d).map(|i| ((i * 5 + 1) % 21) as i8 - 10).collect();
    (w, x)
}

fn plain(w: &[i8], x: &[i8], rows: usize, d: usize) -> Vec<i32> {
    (0..rows).map(|r| (0..d).map(|j| w[r * d + j] as i32 * x[j] as i32).sum()).collect()
}

#[test]
fn every_version_is_exact() {
    let (rows, d) = (8, 128);
    let (w, x) = data(rows, d);
    let want = plain(&w, &x, rows, d);
    let by_rows = pack_q4(&w, rows, d);
    let by_quads = pack_q4_quad(&w, rows, d);
    for threads in [1, 2, 3, 5, 12, usize::MAX] {
        let mut y = vec![0i32; rows];
        gemv_q4(&by_rows, &x, &mut y, rows, d, threads);
        assert_eq!(y, want);
        let mut y = vec![0i32; rows];
        gemv_q4_v2(&by_rows, &x, &mut y, rows, d, threads);
        assert_eq!(y, want);
        let mut y = vec![0i32; rows];
        gemv_q4_v3(&by_rows, &x, &mut y, rows, d, threads);
        assert_eq!(y, want);
        let mut y = vec![0i32; rows];
        gemv_q4_v4(&by_quads, &x, &mut y, rows, d, threads);
        assert_eq!(y, want);
    }
}

#[test]
fn extremes_are_exact() {
    let (rows, d) = (4, 64);
    let w: Vec<i8> = (0..rows * d).map(|i| if i % 2 == 0 { -8 } else { 7 }).collect();
    let x: Vec<i8> = (0..d).map(|i| if i % 3 == 0 { -128 } else { 127 }).collect();
    let want = plain(&w, &x, rows, d);
    let mut y = vec![0i32; rows];
    gemv_q4(&pack_q4(&w, rows, d), &x, &mut y, rows, d, 2);
    assert_eq!(y, want);
    gemv_q4_v4(&pack_q4_quad(&w, rows, d), &x, &mut y, rows, d, 2);
    assert_eq!(y, want);
}

#[test]
fn packed_weights_are_offset_by_eight() {
    let mut w = vec![0i8; 64];
    w[0] = -8;
    w[16] = 7;
    let p = pack_q4(&w, 1, 64);
    assert_eq!(p.len(), 32);
    assert_eq!(p[0], 0xf0);
    assert_eq!(p[1], 0x88);
    let mut x = vec![0i8; 64];
    x[0] = 3;
    assert_eq!(sum_x(&x), 3);
    assert_eq!(dot_row_q4(&p, 0, &x, 64), -24);
}

#[test]
fn folding_changes_nothing_for_any_bytes() {
    let (rows, d) = (8, 192);
    let bytes: Vec<u8> = (0..rows * d / 2).map(|i| (i * 37 + i / 7 + 11) as u8).collect();
    let x: Vec<i8> = (0..d).map(|i| (i * 29 + 5) as u8 as i8).collect();
    let (mut a, mut b, mut c) = (vec![0i32; rows], vec![0i32; rows], vec![0i32; rows]);
    gemv_q4(&bytes, &x, &mut a, rows, d, 3);
    gemv_q4_v2(&bytes, &x, &mut b, rows, d, 2);
    gemv_q4_v3(&bytes, &x, &mut c, rows, d, 5);
    assert_eq!(a, b);
    assert_eq!(a, c);
    assert_ne!(a[0], a[1]);
}

#[test]
fn quads_hold_the_bytes_of_the_rows() {
    let (rows, d) = (10, 96);
    let (w, _) = data(rows, d);
    let (p, quads) = (pack_q4(&w, rows, d), pack_q4_quad(&w, rows, d));
    assert_eq!(p.len(), quads.len());
    for (q, r, b, i) in (0..2 * 4 * 3 * 16).map(|n| (n / 192, n / 48 % 4, n / 16 % 3, n % 16)) {
        let byte = quads[q * 2 * d + 64 * b + 16 * r + i];
        assert_eq!(byte, p[(4 * q + r) * d / 2 + 16 * b + i]);
    }
    // the last two rows make no quad
    assert!(quads[4 * d..].iter().all(|&b| b == 0) && p[4 * d..].iter().any(|&b| b != 0));
    assert_eq!(pack_q4_quad(&w, 3, d), vec![0; 3 * d / 2]);
}
