use ferrum_core::quant::{QKind, QWeight, QUANT_MIN_LEN};
use ferrum_core::{Math, Tensor, F32};

struct Std;

impl Math for Std {
    fn exp(&self, x: F32) -> F32 {
        f(g(x).exp())
    }
    fn ln(&self, x: F32) -> F32 {
        f(g(x).ln())
    }
    fn tanh(&self, x: F32) -> F32 {
        f(g(x).tanh())
    }
    fn sin(&self, x: F32) -> F32 {
        f(g(x).sin())
    }
    fn cos(&self, x: F32) -> F32 {
        f(g(x).cos())
    }
    fn powi(&self, x: F32, n: i32) -> F32 {
        f(g(x).powi(n))
    }
    fn inv_freq(&self, base: F32, i: usize, dim: usize) -> F32 {
        f((g(base) as f64).powf(-2.0 * i as f64 / dim as f64) as f32)
    }
    fn norm(&self, v: &Vec<F32>) -> F32 {
        let sum: f64 = v.iter().map(|x| (g(*x) as f64) * (g(*x) as f64)).sum();
        f(sum.sqrt() as f32)
    }
}

fn f(x: f32) -> F32 {
    F32::from_bits(x.to_bits())
}

fn g(x: F32) -> f32 {
    f32::from_bits(x.to_bits())
}

#[allow(dead_code)]
fn fv(v: Vec<f32>) -> Vec<F32> {
    v.into_iter().map(f).collect()
}

#[allow(dead_code)]
fn gv(v: &[F32]) -> Vec<f32> {
    v.iter().map(|x| g(*x)).collect()
}

#[allow(dead_code)]
fn mat(r: usize, c: usize, v: Vec<f32>) -> Tensor {
    Tensor::matrix(r, c, fv(v)).unwrap()
}

#[allow(dead_code)]
fn vect(v: Vec<f32>) -> Tensor {
    Tensor::vector(fv(v))
}

fn fake_quantize_int8(data: &mut Vec<f32>) -> bool {
    let mut d = fv(data.clone());
    let done = ferrum_core::quant::fake_quantize_int8(&mut d);
    *data = gv(&d);
    done
}

fn fake_quantize_int8_per_channel(data: &mut Vec<f32>, channels: usize) -> bool {
    let mut d = fv(data.clone());
    let done = ferrum_core::quant::fake_quantize_int8_per_channel(&mut d, channels);
    *data = gv(&d);
    done
}

fn int8_scale(data: &[f32]) -> f32 {
    g(ferrum_core::quant::int8_scale(&fv(data.to_vec())))
}

fn int8_scales_per_channel(data: &[f32], channels: usize) -> Vec<f32> {
    gv(&ferrum_core::quant::int8_scales_per_channel(&fv(data.to_vec()), channels))
}

fn qweight(data: &[f32], rows: usize, cols: usize, kind: QKind) -> QWeight {
    QWeight::from_f32(&fv(data.to_vec()), rows, cols, kind)
}

#[test]
fn fake_quantize_snaps_to_int8_grid() {
    let mut data: Vec<f32> = (0..128).map(|i| (i as f32 * 0.13).sin()).collect();
    assert!(fake_quantize_int8(&mut data));
    let scale = int8_scale(&data);
    for &v in &data {
        let q = v / scale;
        assert!(
            (q - q.round()).abs() < 1e-4,
            "{v} is not an int8 multiple of scale {scale}"
        );
    }
}

#[test]
fn fake_quantize_is_idempotent() {
    let mut data: Vec<f32> = (0..100).map(|i| (i as f32 * 0.37).cos() * 2.0).collect();
    fake_quantize_int8(&mut data);
    let once = data.clone();
    fake_quantize_int8(&mut data);
    for (a, b) in once.iter().zip(&data) {
        assert!((a - b).abs() < 1e-6);
    }
}

#[test]
fn fake_quantize_bounds_error_by_half_scale() {
    let original: Vec<f32> = (0..256).map(|i| (i as f32 * 0.211).sin() * 0.5).collect();
    let mut data = original.clone();
    fake_quantize_int8(&mut data);
    let scale = int8_scale(&original);
    for (o, q) in original.iter().zip(&data) {
        assert!((o - q).abs() <= scale * 0.5 + 1e-6);
    }
}

#[test]
fn short_and_nonfinite_tensors_untouched() {
    let mut short = vec![0.3f32; QUANT_MIN_LEN - 1];
    assert!(!fake_quantize_int8(&mut short));
    assert!(short.iter().all(|&v| v == 0.3));

    let mut bad = vec![1.0f32; QUANT_MIN_LEN];
    bad[7] = f32::NAN;
    assert!(!fake_quantize_int8(&mut bad));
}

#[test]
fn all_zero_tensor_is_fine() {
    let mut zeros = vec![0.0f32; QUANT_MIN_LEN];
    assert!(fake_quantize_int8(&mut zeros));
    assert!(zeros.iter().all(|&v| v == 0.0));
}


#[test]
fn per_channel_each_row_on_its_own_grid() {
    let channels = 4;
    let row = 32;
    let mut data: Vec<f32> = (0..channels * row).map(|i| (i as f32 * 0.13).sin()).collect();
    data[2 * row + 5] = 50.0;
    assert!(fake_quantize_int8_per_channel(&mut data, channels));

    let scales = int8_scales_per_channel(&data, channels);
    for (c, chunk) in data.chunks(row).enumerate() {
        for &v in chunk {
            let q = v / scales[c];
            assert!((q - q.round()).abs() < 1e-3, "row {c}: {v} off its grid");
        }
    }
    assert!(scales[2] > scales[0] * 5.0, "outlier did not localise to its row");
}

#[test]
fn per_channel_beats_per_tensor_with_a_localized_outlier() {
    let channels = 8;
    let row = 32;
    let original: Vec<f32> = (0..channels * row)
        .map(|i| ((i as f32 * 0.07).sin()) * 0.5)
        .collect();
    let mut with_outlier = original.clone();
    with_outlier[3] = 40.0;

    let mut per_tensor = with_outlier.clone();
    fake_quantize_int8(&mut per_tensor);
    let mut per_channel = with_outlier.clone();
    fake_quantize_int8_per_channel(&mut per_channel, channels);

    let err = |q: &[f32]| -> f32 {
        with_outlier[row..]
            .iter()
            .zip(&q[row..])
            .map(|(a, b)| (a - b).abs())
            .sum::<f32>()
    };
    let e_tensor = err(&per_tensor);
    let e_channel = err(&per_channel);
    assert!(e_channel * 5.0 < e_tensor,
        "per-channel ({e_channel:.4}) should be far below per-tensor ({e_tensor:.4})");
}

#[test]
fn per_channel_single_channel_equals_per_tensor() {
    let mut a: Vec<f32> = (0..128).map(|i| (i as f32 * 0.21).cos()).collect();
    let mut b = a.clone();
    fake_quantize_int8(&mut a);
    fake_quantize_int8_per_channel(&mut b, 1);
    assert_eq!(a, b);
}


#[test]
fn qweight_int8_roundtrip_bounded_by_half_scale() {
    let (rows, cols) = (5, 40);
    let data: Vec<f32> = (0..rows * cols).map(|i| (i as f32 * 0.017).sin() * 1.3).collect();
    let qw = qweight(&data, rows, cols, QKind::Int8);
    assert_eq!(qw.kind, QKind::Int8);
    assert_eq!(qw.resident_bytes(), rows * cols + rows * 4);
    let back = gv(&qw.to_f32());
    for r in 0..rows {
        let row = &data[r * cols..(r + 1) * cols];
        let scale = int8_scale(row);
        for c in 0..cols {
            assert!((row[c] - back[r * cols + c]).abs() <= scale * 0.5 + 1e-6);
        }
    }
}

#[test]
fn qweight_int4_roundtrip_bounded_by_half_scale() {
    let (rows, cols) = (4, 31);
    let data: Vec<f32> = (0..rows * cols).map(|i| (i as f32 * 0.07).cos()).collect();
    let qw = qweight(&data, rows, cols, QKind::Int4);
    assert_eq!(qw.kind, QKind::Int4);
    assert_eq!(qw.q.len(), rows * 16);
    let back = gv(&qw.to_f32());
    for r in 0..rows {
        let row = &data[r * cols..(r + 1) * cols];
        let amax = row.iter().fold(0.0f32, |m, &v| m.max(v.abs()));
        let step = amax / 7.0;
        for c in 0..cols {
            assert!(
                (row[c] - back[r * cols + c]).abs() <= step * 0.5 + 1e-6,
                "int4 r{r} c{c}: {} vs {}", row[c], back[r * cols + c]
            );
        }
    }
}

#[test]
fn qweight_int4_is_eighth_size_of_f32() {
    let (rows, cols) = (64, 64);
    let data = vec![0.5f32; rows * cols];
    let qw = qweight(&data, rows, cols, QKind::Int4);
    assert_eq!(qw.q.len(), rows * cols / 2);
    assert_eq!(QKind::Int4.packed_len(rows, cols), rows * cols / 2);
    assert_eq!(QKind::Int8.packed_len(rows, cols), rows * cols);
}

#[test]
fn nibble_sign_extension() {
    assert_eq!(QWeight::nibble_to_i8(0x0), 0);
    assert_eq!(QWeight::nibble_to_i8(0x7), 7);
    assert_eq!(QWeight::nibble_to_i8(0xF), -1);
    assert_eq!(QWeight::nibble_to_i8(0x9), -7);
}

#[test]
fn per_channel_guards_reject_bad_inputs() {
    let mut short = vec![0.5f32; QUANT_MIN_LEN - 1];
    assert!(!fake_quantize_int8_per_channel(&mut short, 1));
    let mut indivisible = vec![0.5f32; 100];
    assert!(!fake_quantize_int8_per_channel(&mut indivisible, 7));
    let mut zero_ch = vec![0.5f32; 100];
    assert!(!fake_quantize_int8_per_channel(&mut zero_ch, 0));
}

#[test]
fn levels_are_exact() {
    let mut row = vec![0.0f32; 64];
    row[0] = 127.0;
    row[1] = -63.4;
    row[2] = 63.5;
    let qw = qweight(&row, 1, 64, QKind::Int8);
    assert_eq!(qw.level_at(0, 0), 127);
    assert_eq!(qw.level_at(0, 1), -63);
    assert_eq!(qw.level_at(0, 2), 64);
    assert_eq!(int8_scale(&row), 1.0);
}

#[test]
fn rows_are_unpacked_one_by_one() {
    let data: Vec<f32> = (0..21).map(|i| (i as f32 * 0.4).sin()).collect();
    for kind in [QKind::Int8, QKind::Int4] {
        let qw = qweight(&data, 3, 7, kind);
        assert_eq!(qw.row_bytes(), if kind == QKind::Int8 { 7 } else { 4 });
        let all = gv(&qw.to_f32());
        for r in 0..3 {
            let mut row = fv(vec![9.0; 7]);
            qw.dequant_row(r, &mut row);
            assert_eq!(gv(&row), all[r * 7..r * 7 + 7]);
        }
    }
}

#[test]
fn rows_without_a_finite_inverse_take_the_outer_levels() {
    let tiny = f32::from_bits(0x0010_0000);
    let data = vec![tiny, -tiny / 2.0, tiny / 4.0, 0.0];
    let qw = qweight(&data, 1, 4, QKind::Int8);
    let scale = int8_scale(&data);
    assert!(scale > 0.0);
    assert!((1.0 / scale).is_infinite());
    assert_eq!(qw.level_at(0, 0), 127);
    assert_eq!(qw.level_at(0, 1), -127);
    assert_eq!(qw.level_at(0, 2), 127);
    assert_eq!(qw.level_at(0, 3), 0);
}

#[test]
fn a_second_grid_keeps_the_levels() {
    let once_from: Vec<f32> = (0..128).map(|i| (i as f32 * 0.29).sin() * 3.0).collect();
    let mut once = once_from.clone();
    assert!(fake_quantize_int8(&mut once));
    let mut twice = once.clone();
    assert!(fake_quantize_int8(&mut twice));
    let (a, b) = (int8_scale(&once_from), int8_scale(&once));
    for (x, y) in once.iter().zip(&twice) {
        assert_eq!((x / a).round(), (y / b).round());
        assert!((x - y).abs() * 16384.0 <= a);
    }
}

#[test]
fn the_least_magnitudes_have_no_stable_grid() {
    // A scale of four units of 2^-149 puts 445 units on 111 levels; their own scale
    // is three units.
    let unit = f32::from_bits(1);
    let mut data = vec![0.0f32; QUANT_MIN_LEN];
    data[0] = f32::from_bits(445);
    assert_eq!(int8_scale(&data), 4.0 * unit);
    assert!(fake_quantize_int8(&mut data));
    assert_eq!(data[0].to_bits(), 444);
    assert_eq!(int8_scale(&data), 3.0 * unit);
}
