use ferrum_core::activation::Activation;
use ferrum_core::{Math, Tensor, F32};

struct Std;

impl Math for Std {
    fn exp(&self, x: F32) -> F32 {
        f(g(x).exp())
    }
    fn ln(&self, x: F32) -> F32 {
        f(g(x).ln())
    }
    fn tanh(&self, x: F32) -> F32 {
        f(g(x).tanh())
    }
    fn sin(&self, x: F32) -> F32 {
        f(g(x).sin())
    }
    fn cos(&self, x: F32) -> F32 {
        f(g(x).cos())
    }
    fn powi(&self, x: F32, n: i32) -> F32 {
        f(g(x).powi(n))
    }
    fn inv_freq(&self, base: F32, i: usize, dim: usize) -> F32 {
        f((g(base) as f64).powf(-2.0 * i as f64 / dim as f64) as f32)
    }
    fn norm(&self, v: &Vec<F32>) -> F32 {
        let sum: f64 = v.iter().map(|x| (g(*x) as f64) * (g(*x) as f64)).sum();
        f(sum.sqrt() as f32)
    }
}

fn f(x: f32) -> F32 {
    F32::from_bits(x.to_bits())
}

fn g(x: F32) -> f32 {
    f32::from_bits(x.to_bits())
}

#[allow(dead_code)]
fn fv(v: Vec<f32>) -> Vec<F32> {
    v.into_iter().map(f).collect()
}

#[allow(dead_code)]
fn gv(v: &[F32]) -> Vec<f32> {
    v.iter().map(|x| g(*x)).collect()
}

#[allow(dead_code)]
fn mat(r: usize, c: usize, v: Vec<f32>) -> Tensor {
    Tensor::matrix(r, c, fv(v)).unwrap()
}

#[allow(dead_code)]
fn vect(v: Vec<f32>) -> Tensor {
    Tensor::vector(fv(v))
}

#[test]
fn relu_clamps_negatives() {
    let t = vect(vec![-2.0, 0.0, 3.0]);
    let out = Activation::ReLU.apply(&Std, &t).unwrap();
    assert_eq!(gv(&out.data), vec![0.0, 0.0, 3.0]);
}

#[test]
fn sigmoid_at_zero_is_half() {
    let t = vect(vec![0.0]);
    let out = Activation::Sigmoid.apply(&Std, &t).unwrap();
    assert!((g(out.data[0]) - 0.5).abs() < 1e-6);
}

#[test]
fn tanh_at_zero_is_zero() {
    let t = vect(vec![0.0]);
    assert!(g(Activation::Tanh.apply(&Std, &t).unwrap().data[0]).abs() < 1e-7);
}

#[test]
fn softmax_sums_to_one() {
    let t = mat(1, 4, vec![1.0, 2.0, -1.0, 0.5]);
    let p = Activation::Softmax.apply(&Std, &t).unwrap();
    let s: f32 = gv(&p.data).iter().sum();
    assert!((s - 1.0).abs() < 1e-6);
}

#[test]
fn identity_is_noop() {
    let t = vect(vec![1.0, 2.0, 3.0]);
    assert_eq!(Activation::Identity.apply(&Std, &t).unwrap(), t);
}

#[test]
fn tag_roundtrips_all_variants() {
    for a in [
        Activation::Identity,
        Activation::ReLU,
        Activation::Sigmoid,
        Activation::Tanh,
        Activation::Softmax,
        Activation::SiLU,
    ] {
        assert_eq!(Activation::from_tag(a.tag()), Some(a));
    }
}

#[test]
fn silu_matches_x_times_sigmoid() {
    let t = vect(vec![0.0, 1.0, -1.0, 2.0]);
    let out = Activation::SiLU.apply(&Std, &t).unwrap();
    let expect: Vec<f32> = gv(&t.data).iter().map(|&x| x / (1.0 + (-x).exp())).collect();
    assert_eq!(g(out.data[0]), 0.0);
    for (a, b) in gv(&out.data).iter().zip(&expect) {
        assert!((a - b).abs() < 1e-6);
    }
}

#[test]
fn unknown_tag_returns_none() {
    assert_eq!(Activation::from_tag(99), None);
}

#[test]
fn softmax_of_a_vector_is_refused() {
    assert!(Activation::Softmax.apply(&Std, &vect(vec![1.0, 2.0])).is_err());
}

#[test]
fn names_tell_the_variants_apart() {
    let names: Vec<&str> = (0..6).map(|t| Activation::from_tag(t).unwrap().name()).collect();
    for i in 0..names.len() {
        for j in 0..i {
            assert_ne!(names[i], names[j]);
        }
    }
}
