use ferrum_core::activation::Activation;
use ferrum_core::layer::{ActivationLayer, Linear};
use ferrum_core::model::{AnyLayer, Sequential};
use ferrum_core::{Math, Tensor, F32};

struct Std;

impl Math for Std {
    fn exp(&self, x: F32) -> F32 {
        f(g(x).exp())
    }
    fn ln(&self, x: F32) -> F32 {
        f(g(x).ln())
    }
    fn tanh(&self, x: F32) -> F32 {
        f(g(x).tanh())
    }
    fn sin(&self, x: F32) -> F32 {
        f(g(x).sin())
    }
    fn cos(&self, x: F32) -> F32 {
        f(g(x).cos())
    }
    fn powi(&self, x: F32, n: i32) -> F32 {
        f(g(x).powi(n))
    }
    fn inv_freq(&self, base: F32, i: usize, dim: usize) -> F32 {
        f((g(base) as f64).powf(-2.0 * i as f64 / dim as f64) as f32)
    }
    fn norm(&self, v: &Vec<F32>) -> F32 {
        let sum: f64 = v.iter().map(|x| (g(*x) as f64) * (g(*x) as f64)).sum();
        f(sum.sqrt() as f32)
    }
}

fn f(x: f32) -> F32 {
    F32::from_bits(x.to_bits())
}

fn g(x: F32) -> f32 {
    f32::from_bits(x.to_bits())
}

#[allow(dead_code)]
fn fv(v: Vec<f32>) -> Vec<F32> {
    v.into_iter().map(f).collect()
}

#[allow(dead_code)]
fn gv(v: &[F32]) -> Vec<f32> {
    v.iter().map(|x| g(*x)).collect()
}

#[allow(dead_code)]
fn mat(r: usize, c: usize, v: Vec<f32>) -> Tensor {
    Tensor::matrix(r, c, fv(v)).unwrap()
}

#[allow(dead_code)]
fn vect(v: Vec<f32>) -> Tensor {
    Tensor::vector(fv(v))
}

fn row(v: Vec<f32>) -> Tensor {
    Tensor::row(fv(v)).unwrap()
}

fn relu() -> AnyLayer {
    AnyLayer::Activation(ActivationLayer::new(Activation::ReLU))
}

fn two_layer_model() -> Sequential {
    let lin = Linear::new(2, 2, fv(vec![2.0, 0.0, 0.0, 2.0]), fv(vec![0.0, -10.0])).unwrap();
    Sequential::new().with(AnyLayer::Linear(lin)).with(relu())
}

#[test]
fn forward_threads_through_layers() {
    let model = two_layer_model();
    let x = row(vec![3.0, 1.0]);
    assert_eq!(gv(&model.forward(&Std, &x).unwrap().data), vec![6.0, 0.0]);
}

#[test]
fn len_counts_layers() {
    assert_eq!(two_layer_model().len(), 2);
}

#[test]
fn empty_model_is_noop() {
    let m = Sequential::new();
    let x = row(vec![1.0, 2.0]);
    assert_eq!(gv(&m.forward(&Std, &x).unwrap().data), vec![1.0, 2.0]);
}

#[test]
fn summary_contains_layer_names() {
    let s = two_layer_model().summary();
    assert!(s.contains("Linear") && s.contains("Activation"));
}

#[test]
fn push_increases_len() {
    let mut m = Sequential::new();
    assert_eq!(m.len(), 0);
    m.push(relu());
    assert_eq!(m.len(), 1);
}

#[test]
fn is_empty_on_new() {
    assert!(Sequential::new().is_empty());
}

#[test]
fn not_empty_after_push() {
    let mut m = Sequential::new();
    m.push(relu());
    assert!(!m.is_empty());
}

#[test]
fn default_is_same_as_new() {
    let d = Sequential::default();
    assert_eq!(d.len(), Sequential::new().len());
}

#[test]
fn layers_slice_has_correct_len() {
    let m = two_layer_model();
    assert_eq!(m.layers().len(), 2);
}

#[test]
fn a_layer_that_does_not_suit_stops_the_pipeline() {
    assert!(two_layer_model().forward(&Std, &row(vec![1.0, 2.0, 3.0])).is_err());
}

#[test]
fn joined_stacks_run_one_after_the_other() {
    let first = two_layer_model();
    let lin = Linear::new(2, 1, fv(vec![1.0, 3.0]), fv(vec![0.5])).unwrap();
    let second = Sequential::new().with(AnyLayer::Linear(lin));
    let mut both = first.clone();
    for l in second.layers() {
        both.push(l.clone());
    }
    let x = row(vec![3.0, 6.0]);
    let apart = second.forward(&Std, &first.forward(&Std, &x).unwrap()).unwrap();
    assert_eq!(gv(&both.forward(&Std, &x).unwrap().data), gv(&apart.data));
    assert_eq!(gv(&apart.data), vec![12.5]);
    let bad = row(vec![1.0, 2.0, 3.0]);
    assert_eq!(both.forward(&Std, &bad).err(), first.forward(&Std, &bad).err());
}

#[test]
fn layers_whose_sizes_disagree_are_found() {
    let mut m = two_layer_model();
    assert!(m.is_valid());
    m.push(AnyLayer::Linear(Linear {
        weight: mat(1, 2, vec![1.0, 2.0]),
        bias: vect(vec![0.0]),
        in_f: 1,
        out_f: 2,
        quant: None,
    }));
    assert!(!m.is_valid());
    let t = Tensor { shape: vec![2, 0, 3], data: vec![] };
    assert!(t.is_valid());
    assert!(!Tensor { shape: vec![2], data: fv(vec![1.0]) }.is_valid());
    assert!(!Tensor { shape: vec![usize::MAX, 2], data: vec![] }.is_valid());
}
