use ferrum_core::ops::{
    add_bias, argmax_rows, linear_forward, matmul, qlinear, scale, softmax_rows,
    sum_axis0, transpose,
};
use ferrum_core::quant::{QKind, QWeight};
use ferrum_core::{InferError, Math, Tensor, F32};

struct Std;

impl Math for Std {
    fn exp(&self, x: F32) -> F32 {
        f(g(x).exp())
    }
    fn ln(&self, x: F32) -> F32 {
        f(g(x).ln())
    }
    fn tanh(&self, x: F32) -> F32 {
        f(g(x).tanh())
    }
    fn sin(&self, x: F32) -> F32 {
        f(g(x).sin())
    }
    fn cos(&self, x: F32) -> F32 {
        f(g(x).cos())
    }
    fn powi(&self, x: F32, n: i32) -> F32 {
        f(g(x).powi(n))
    }
    fn inv_freq(&self, base: F32, i: usize, dim: usize) -> F32 {
        f((g(base) as f64).powf(-2.0 * i as f64 / dim as f64) as f32)
    }
    fn norm(&self, v: &Vec<F32>) -> F32 {
        let sum: f64 = v.iter().map(|x| (g(*x) as f64) * (g(*x) as f64)).sum();
        f(sum.sqrt() as f32)
    }
}

fn f(x: f32) -> F32 {
    F32::from_bits(x.to_bits())
}

fn g(x: F32) -> f32 {
    f32::from_bits(x.to_bits())
}

#[allow(dead_code)]
fn fv(v: Vec<f32>) -> Vec<F32> {
    v.into_iter().map(f).collect()
}

#[allow(dead_code)]
fn gv(v: &[F32]) -> Vec<f32> {
    v.iter().map(|x| g(*x)).collect()
}

#[allow(dead_code)]
fn mat(r: usize, c: usize, v: Vec<f32>) -> Tensor {
    Tensor::matrix(r, c, fv(v)).unwrap()
}

#[allow(dead_code)]
fn vect(v: Vec<f32>) -> Tensor {
    Tensor::vector(fv(v))
}

#[test]
fn matmul_1x3_by_3x1() {
    let a = mat(1, 3, vec![1.0, 2.0, 3.0]);
    let b = mat(3, 1, vec![1.0, 0.0, -1.0]);
    let c = matmul(&a, &b).unwrap();
    assert_eq!(c.shape, vec![1, 1]);
    assert_eq!(g(c.data[0]), -2.0);
}

#[test]
fn matmul_2x2() {
    let a = mat(2, 2, vec![1.0, 2.0, 3.0, 4.0]);
    let b = mat(2, 2, vec![5.0, 6.0, 7.0, 8.0]);
    let c = matmul(&a, &b).unwrap();
    assert_eq!(gv(&c.data), vec![19.0, 22.0, 43.0, 50.0]);
}

#[test]
fn matmul_dim_mismatch_errors() {
    let a = mat(2, 3, vec![0.0; 6]);
    let b = mat(2, 2, vec![0.0; 4]);
    assert!(matches!(matmul(&a, &b), Err(InferError::DimMismatch(_))));
}

#[test]
fn add_bias_per_row() {
    let m = mat(2, 2, vec![1.0, 1.0, 1.0, 1.0]);
    let b = vect(vec![10.0, 20.0]);
    let out = add_bias(&m, &b).unwrap();
    assert_eq!(gv(&out.data), vec![11.0, 21.0, 11.0, 21.0]);
}

#[test]
fn add_bias_wrong_length() {
    let m = mat(2, 2, vec![0.0; 4]);
    let b = vect(vec![1.0]);
    assert!(add_bias(&m, &b).is_err());
}

#[test]
fn add_elementwise() {
    let a = vect(vec![1.0, 2.0]);
    let b = vect(vec![3.0, 4.0]);
    assert_eq!(gv(&ferrum_core::ops::add(&a, &b).unwrap().data), vec![4.0, 6.0]);
}

#[test]
fn add_shape_mismatch() {
    let a = vect(vec![1.0]);
    let b = vect(vec![1.0, 2.0]);
    assert!(ferrum_core::ops::add(&a, &b).is_err());
}

#[test]
fn transpose_swaps_dims() {
    let m = mat(2, 3, vec![1.0, 2.0, 3.0, 4.0, 5.0, 6.0]);
    let t = transpose(&m).unwrap();
    assert_eq!(t.shape, vec![3, 2]);
    assert_eq!(gv(&t.data), vec![1.0, 4.0, 2.0, 5.0, 3.0, 6.0]);
}

#[test]
fn sum_axis0_adds_down_columns() {
    let m = mat(2, 3, vec![1.0, 2.0, 3.0, 10.0, 20.0, 30.0]);
    assert_eq!(gv(&sum_axis0(&m).unwrap().data), vec![11.0, 22.0, 33.0]);
}

#[test]
fn scale_multiplies_all() {
    let t = vect(vec![1.0, 2.0, 3.0]);
    assert_eq!(gv(&scale(&t, f(2.0)).data), vec![2.0, 4.0, 6.0]);
}

#[test]
fn mul_hadamard() {
    let a = vect(vec![2.0, 3.0]);
    let b = vect(vec![4.0, 5.0]);
    assert_eq!(gv(&ferrum_core::ops::mul(&a, &b).unwrap().data), vec![8.0, 15.0]);
}

#[test]
fn argmax_rows_picks_max_per_row() {
    let m = mat(2, 3, vec![0.1, 0.7, 0.2, 0.9, 0.05, 0.05]);
    assert_eq!(argmax_rows(&m).unwrap(), vec![1, 0]);
}

#[test]
fn matmul_large_matches_serial_reference() {
    let (m, k, n) = (200usize, 80usize, 160usize);
    let a_data: Vec<f32> = (0..m * k).map(|i| ((i * 7 % 13) as f32 - 6.0) * 0.1).collect();
    let b_data: Vec<f32> = (0..k * n).map(|i| ((i * 5 % 11) as f32 - 5.0) * 0.1).collect();
    let a = mat(m, k, a_data.clone());
    let b = mat(k, n, b_data.clone());

    let got = matmul(&a, &b).unwrap();
    assert_eq!(got.shape, vec![m, n]);

    let mut want = vec![0.0f32; m * n];
    for i in 0..m {
        for p in 0..k {
            let a_ip = a_data[i * k + p];
            for j in 0..n {
                want[i * n + j] += a_ip * b_data[p * n + j];
            }
        }
    }
    assert_eq!(gv(&got.data), want, "parallel matmul diverged from serial reference");
}

fn det_data(n: usize, seed: u64) -> Vec<f32> {
    let mut x = seed | 1;
    (0..n)
        .map(|_| {
            x ^= x << 13;
            x ^= x >> 7;
            x ^= x << 17;
            (x >> 40) as f32 / (1u64 << 23) as f32 - 1.0
        })
        .collect()
}

#[test]
fn linear_forward_matches_add_bias_matmul_bitwise() {
    let (m, k, n) = (40usize, 70usize, 130usize);
    let input = mat(m, k, det_data(m * k, 1));
    let weight = mat(k, n, det_data(k * n, 2));
    let bias = det_data(n, 3);
    let want = add_bias(&matmul(&input, &weight).unwrap(), &vect(bias.clone())).unwrap();
    let got = linear_forward(&input, &weight, &fv(bias)).unwrap();
    assert_eq!(got.shape, want.shape);
    assert_eq!(got.data, want.data, "fused linear diverged from add_bias(matmul)");
}

#[test]
fn qlinear_int8_close_to_f32_linear() {
    let (k, n) = (96usize, 200usize);
    let wdata = fv(det_data(k * n, 7));
    let weight = Tensor::matrix(k, n, wdata.clone()).unwrap();
    let bias = fv(det_data(n, 8));
    let input = mat(1, k, det_data(k, 9));
    let reference = linear_forward(&input, &weight, &bias).unwrap();

    let qw = QWeight::from_f32(&wdata, k, n, QKind::Int8);
    let got = qlinear(&input, &qw, &bias).unwrap();
    assert_eq!(got.shape, vec![1, n]);
    for (a, b) in gv(&reference.data).iter().zip(&gv(&got.data)) {
        assert!((a - b).abs() < 0.05, "int8 qlinear drift: {a} vs {b}");
    }
}

#[test]
fn qlinear_int4_tracks_f32_linear() {
    let (k, n) = (96usize, 200usize);
    let wdata = fv(det_data(k * n, 11));
    let weight = Tensor::matrix(k, n, wdata.clone()).unwrap();
    let bias = fv(det_data(n, 12));
    let input = mat(1, k, det_data(k, 13));
    let reference = linear_forward(&input, &weight, &bias).unwrap();

    let qw = QWeight::from_f32(&wdata, k, n, QKind::Int4);
    let got = qlinear(&input, &qw, &bias).unwrap();
    let mae: f32 = gv(&reference.data)
        .iter()
        .zip(&gv(&got.data))
        .map(|(a, b)| (a - b).abs())
        .sum::<f32>()
        / n as f32;
    assert!(mae < 0.5, "int4 qlinear mean abs error too high: {mae}");
}

#[test]
fn qlinear_decode_gemv_is_deterministic_and_correct() {
    let (k, n) = (64usize, 2048usize);
    let wdata = fv(det_data(k * n, 21));
    let bias = det_data(n, 22);
    let x = det_data(k, 23);
    let input = mat(1, k, x.clone());
    let qw = QWeight::from_f32(&wdata, k, n, QKind::Int8);

    let got = qlinear(&input, &qw, &fv(bias.clone())).unwrap();

    let wf = gv(&qw.to_f32());
    let mut want = bias.clone();
    for (j, wj) in want.iter_mut().enumerate() {
        for p in 0..k {
            *wj += x[p] * wf[p * n + j];
        }
    }
    for (a, b) in want.iter().zip(&gv(&got.data)) {
        assert!((a - b).abs() < 1e-3, "decode GEMV mismatch: {a} vs {b}");
    }
}

#[test]
fn qlinear_prefill_m_ge_2_matches_f32_int8_and_int4() {
    let (m, k, n) = (4usize, 64usize, 300usize);
    let wdata = fv(det_data(k * n, 31));
    let weight = Tensor::matrix(k, n, wdata.clone()).unwrap();
    let bias = fv(det_data(n, 32));
    let input = mat(m, k, det_data(m * k, 33));
    let reference = gv(&linear_forward(&input, &weight, &bias).unwrap().data);

    let q8 = QWeight::from_f32(&wdata, k, n, QKind::Int8);
    let got8 = qlinear(&input, &q8, &bias).unwrap();
    assert_eq!(got8.shape, vec![m, n]);
    for (a, b) in reference.iter().zip(&gv(&got8.data)) {
        assert!((a - b).abs() < 0.06, "int8 prefill drift {a} vs {b}");
    }
    let q4 = QWeight::from_f32(&wdata, k, n, QKind::Int4);
    let got4 = gv(&qlinear(&input, &q4, &bias).unwrap().data);
    let mae: f32 =
        reference.iter().zip(&got4).map(|(a, b)| (a - b).abs()).sum::<f32>() / (m * n) as f32;
    assert!(mae < 0.6, "int4 prefill mae {mae}");
}

#[test]
fn qlinear_serial_small_path_is_correct() {
    let (k, n) = (8usize, 8usize);
    let wdata = fv(det_data(k * n, 41));
    let bias = det_data(n, 42);
    let x = det_data(k, 43);
    let input = mat(1, k, x.clone());
    let qw = QWeight::from_f32(&wdata, k, n, QKind::Int8);
    let got = gv(&qlinear(&input, &qw, &fv(bias.clone())).unwrap().data);
    let wf = gv(&qw.to_f32());
    for j in 0..n {
        let mut want = bias[j];
        for p in 0..k {
            want += x[p] * wf[p * n + j];
        }
        assert!((got[j] - want).abs() < 1e-3);
    }
}

#[test]
fn qlinear_and_linear_forward_reject_bad_shapes() {
    let bias = fv(vec![0.0; 4]);
    let short = fv(vec![0.0; 2]);
    let qw = QWeight::from_f32(&fv(det_data(3 * 4, 1)), 3, 4, QKind::Int8);
    let bad_in = mat(1, 5, vec![0.0; 5]);
    assert!(qlinear(&bad_in, &qw, &bias).is_err());
    let good_in = mat(1, 3, vec![0.0; 3]);
    assert!(qlinear(&good_in, &qw, &short).is_err());

    let w = mat(3, 4, vec![0.0; 12]);
    assert!(linear_forward(&bad_in, &w, &bias).is_err());
    assert!(linear_forward(&good_in, &w, &short).is_err());
}

#[test]
fn softmax_rows_sums_to_one() {
    let m = mat(2, 3, vec![1.0, 2.0, 3.0, 0.0, 0.0, 0.0]);
    let p = gv(&softmax_rows(&Std, &m).unwrap().data);
    for r in 0..2 {
        let s: f32 = p[r * 3..(r + 1) * 3].iter().sum();
        assert!((s - 1.0).abs() < 1e-6, "row {r} sum = {s}");
    }
}

#[test]
fn softmax_monotone_within_row() {
    let m = mat(1, 3, vec![1.0, 2.0, 3.0]);
    let p = gv(&softmax_rows(&Std, &m).unwrap().data);
    assert!(p[0] < p[1] && p[1] < p[2]);
}

#[test]
fn transposing_twice_changes_nothing() {
    let m = mat(3, 4, det_data(12, 5));
    assert_eq!(transpose(&transpose(&m).unwrap()).unwrap(), m);
}

#[test]
fn a_vector_is_no_matrix() {
    assert!(matches!(transpose(&vect(vec![1.0])), Err(InferError::NotAMatrix(_))));
}
