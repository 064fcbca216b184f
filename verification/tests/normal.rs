use bm_core::normal::{clipped_relu, i16_to_i32, out, Dense, Incremental, Psqt, SCALE, UNITS};

#[test]
fn normal_constants() {
    assert_eq!(UNITS, 170);
    assert_eq!(SCALE, 64);
}

#[test]
fn psqt_adds_and_takes_away_rows() {
    let weights: [[i32; 2]; 3] = [[1, 2], [10, -20], [100, 200]];
    let mut psqt = Psqt::new(&weights);
    assert_eq!(*psqt.get(), [0, 0]);
    psqt.incr_ff(1, 1);
    assert_eq!(*psqt.get(), [10, -20]);
    psqt.incr_ff(2, 1);
    psqt.incr_ff(0, -1);
    assert_eq!(*psqt.get(), [109, 178]);
    psqt.incr_ff(1, -1);
    assert_eq!(*psqt.get(), [99, 198]);
    psqt.incr_ff(0, 3);
    assert_eq!(*psqt.get(), [102, 204]);
}

#[test]
fn incremental_starts_from_the_bias() {
    let weights: [[i8; 3]; 2] = [[1, -2, 3], [127, -128, 0]];
    let mut layer = Incremental::new(&weights, [5, 6, 7]);
    assert_eq!(*layer.get(), [5, 6, 7]);
    layer.incr_ff(0, 1);
    assert_eq!(*layer.get(), [6, 4, 10]);
    layer.incr_ff(1, -1);
    assert_eq!(*layer.get(), [-121, 132, 10]);
    layer.incr_ff(1, 1);
    layer.incr_ff(0, -1);
    assert_eq!(*layer.get(), [5, 6, 7]);
}

#[test]
fn dense_computes_one_bucket() {
    let weights: [[i8; 2]; 3] = [[1, 2], [3, 4], [-5, 6]];
    let dense = Dense::new(&weights, [100, -200]);
    assert_eq!(dense.bias, [100, -200]);
    assert_eq!(dense.ff(&[10, 20, 30], 0), [100 + 10 + 60 - 150, -200]);
    assert_eq!(dense.ff(&[10, 20, 30], 1), [100, -200 + 20 + 80 + 180]);
    assert_eq!(dense.ff(&[-128, -128, -128], 1), [100, -200 - 128 * 12]);
    assert_eq!(dense.ff(&[0, 0, 0], 0), [100, -200]);
}

#[test]
fn dense_symmetric_halves_each_product_toward_zero() {
    let weights: [[i8; 2]; 3] = [[1, 2], [3, 4], [-5, 6]];
    let dense = Dense::new(&weights, [100, -200]);
    // 1 * (10 - 7) / 2 + 3 * (20 - 21) / 2 + -5 * (30 - 27) / 2 = 1 - 1 - 7
    assert_eq!(dense.ff_sym(&[10, 20, 30], &[7, 21, 27], 0), [-7, 0]);
    // 2 * 3 / 2 + 4 * -1 / 2 + 6 * 3 / 2 = 3 - 2 + 9
    assert_eq!(dense.ff_sym(&[10, 20, 30], &[7, 21, 27], 1), [0, 10]);
    assert_eq!(dense.ff_sym(&[5, 5, 5], &[5, 5, 5], 1), [0, 0]);
    assert_eq!(dense.ff_sym(&[127, 0, 0], &[-128, 0, 0], 0), [127, 0]);
    assert_eq!(dense.ff_sym(&[7, 21, 27], &[10, 20, 30], 0), [7, 0]);
}

#[test]
fn normal_out_scales_to_centipawns() {
    assert_eq!(out(0), 0);
    assert_eq!(out(4096), 170);
    assert_eq!(out(-4096), -170);
    assert_eq!(out(24), 0);
    assert_eq!(out(25), 1);
    assert_eq!(out(-24), 0);
    assert_eq!(out(-25), -1);
    assert_eq!(out(1000), 41);
    assert_eq!(out(i32::MAX), 32767);
    assert_eq!(out(i32::MIN), -32768);
    assert_eq!(out(789_492), 32767);
    assert_eq!(out(789_491), 32766);
}

#[test]
fn i16_to_i32_keeps_the_numbers() {
    assert_eq!(i16_to_i32([1, -1, 32767, -32768]), [1, -1, 32767, -32768]);
    let none: [i16; 0] = [];
    let empty: [i32; 0] = [];
    assert_eq!(i16_to_i32(none), empty);
}

#[test]
fn clipped_relu_clips_to_the_scale() {
    assert_eq!(clipped_relu([-32768, -1, 0, 1, 63, 64, 65, 32767]), [0, 0, 0, 1, 63, 64, 64, 64]);
}
