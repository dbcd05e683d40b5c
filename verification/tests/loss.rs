use ferrum_core::loss::{mse, softmax_cross_entropy};
use ferrum_core::{Math, Tensor, F32};

struct Std;

impl Math for Std {
    fn exp(&self, x: F32) -> F32 {
        f(g(x).exp())
    }
    fn ln(&self, x: F32) -> F32 {
        f(g(x).ln())
    }
    fn tanh(&self, x: F32) -> F32 {
        f(g(x).tanh())
    }
    fn sin(&self, x: F32) -> F32 {
        f(g(x).sin())
    }
    fn cos(&self, x: F32) -> F32 {
        f(g(x).cos())
    }
    fn powi(&self, x: F32, n: i32) -> F32 {
        f(g(x).powi(n))
    }
    fn inv_freq(&self, base: F32, i: usize, dim: usize) -> F32 {
        f((g(base) as f64).powf(-2.0 * i as f64 / dim as f64) as f32)
    }
    fn norm(&self, v: &Vec<F32>) -> F32 {
        let sum: f64 = v.iter().map(|x| (g(*x) as f64) * (g(*x) as f64)).sum();
        f(sum.sqrt() as f32)
    }
}

fn f(x: f32) -> F32 {
    F32::from_bits(x.to_bits())
}

fn g(x: F32) -> f32 {
    f32::from_bits(x.to_bits())
}

#[allow(dead_code)]
fn fv(v: Vec<f32>) -> Vec<F32> {
    v.into_iter().map(f).collect()
}

#[allow(dead_code)]
fn gv(v: &[F32]) -> Vec<f32> {
    v.iter().map(|x| g(*x)).collect()
}

#[allow(dead_code)]
fn mat(r: usize, c: usize, v: Vec<f32>) -> Tensor {
    Tensor::matrix(r, c, fv(v)).unwrap()
}

#[allow(dead_code)]
fn vect(v: Vec<f32>) -> Tensor {
    Tensor::vector(fv(v))
}

#[test]
fn perfect_prediction_near_zero_loss() {
    let logits = mat(1, 3, vec![100.0, 0.0, 0.0]);
    let (loss, _) = softmax_cross_entropy(&Std, &logits, &[0]).unwrap();
    assert!(g(loss) < 1e-4, "loss = {}", g(loss));
}

#[test]
fn uniform_logits_give_log_vocab_loss() {
    let logits = mat(1, 4, vec![0.0; 4]);
    let (loss, _) = softmax_cross_entropy(&Std, &logits, &[0]).unwrap();
    assert!((g(loss) - (4.0f32).ln()).abs() < 1e-5, "loss = {}", g(loss));
}

#[test]
fn target_out_of_range_errors() {
    let logits = mat(1, 3, vec![0.0; 3]);
    assert!(softmax_cross_entropy(&Std, &logits, &[5]).is_err());
}

#[test]
fn target_count_mismatch_errors() {
    let logits = mat(2, 3, vec![0.0; 6]);
    assert!(softmax_cross_entropy(&Std, &logits, &[0]).is_err());
}

#[test]
fn gradient_finite_difference() {
    let base = vec![0.3f32, -1.2, 0.7, 2.1, -0.5, 0.1];
    let targets = [2usize, 0];
    let logits = mat(2, 3, base.clone());
    let (_, grad) = softmax_cross_entropy(&Std, &logits, &targets).unwrap();

    let eps = 1e-3f32;
    for k in 0..base.len() {
        let mut plus = base.clone();
        plus[k] += eps;
        let mut minus = base.clone();
        minus[k] -= eps;
        let lp = g(softmax_cross_entropy(&Std, &mat(2, 3, plus), &targets).unwrap().0);
        let lm = g(softmax_cross_entropy(&Std, &mat(2, 3, minus), &targets).unwrap().0);
        let numeric = (lp - lm) / (2.0 * eps);
        assert!(
            (numeric - g(grad.data[k])).abs() < 5e-4,
            "k={k}: analytic={} numeric={numeric}",
            g(grad.data[k])
        );
    }
}

#[test]
fn gradient_shape_matches_logits() {
    let logits = mat(3, 5, vec![0.0; 15]);
    let (_, grad) = softmax_cross_entropy(&Std, &logits, &[0, 1, 2]).unwrap();
    assert_eq!(grad.shape, logits.shape);
}

#[test]
fn loss_decreases_after_gradient_step() {
    let mut logits_data = vec![0.0f32; 3];
    let targets = [1usize];
    let lr = 1.0f32;
    let (loss0, grad) =
        softmax_cross_entropy(&Std, &mat(1, 3, logits_data.clone()), &targets).unwrap();
    for i in 0..3 {
        logits_data[i] -= lr * g(grad.data[i]);
    }
    let (loss1, _) = softmax_cross_entropy(&Std, &mat(1, 3, logits_data), &targets).unwrap();
    assert!(g(loss1) < g(loss0), "loss did not decrease: {} → {}", g(loss0), g(loss1));
}

#[test]
fn mse_perfect_prediction_zero_loss() {
    let p = mat(2, 1, vec![1.0, 2.0]);
    let (loss, _) = mse(&p, &fv(vec![1.0, 2.0])).unwrap();
    assert!(g(loss) < 1e-7, "{}", g(loss));
}

#[test]
fn mse_gradient_finite_difference() {
    let targets = [0.5f32, -0.3];
    let ts = fv(targets.to_vec());
    let base = vec![0.7f32, -0.1];
    let (_, grad) = mse(&mat(2, 1, base.clone()), &ts).unwrap();
    let eps = 1e-3f32;
    for k in 0..2 {
        let mut p = base.clone();
        p[k] += eps;
        let (lp, _) = mse(&mat(2, 1, p), &ts).unwrap();
        let mut m = base.clone();
        m[k] -= eps;
        let (lm, _) = mse(&mat(2, 1, m), &ts).unwrap();
        let numeric = (g(lp) - g(lm)) / (2.0 * eps);
        assert!((numeric - g(grad.data[k])).abs() < 1e-3, "k={k}");
    }
}

#[test]
fn mse_of_one_row_is_exact() {
    let (loss, grad) = mse(&mat(2, 1, vec![3.0, 1.0]), &fv(vec![1.0, 2.0])).unwrap();
    assert_eq!(g(loss), 2.5);
    assert_eq!(gv(&grad.data), vec![2.0, -1.0]);
    assert!(mse(&mat(1, 2, vec![0.0; 2]), &fv(vec![0.0])).is_err());
    assert!(mse(&mat(2, 1, vec![0.0; 2]), &fv(vec![0.0])).is_err());
}
