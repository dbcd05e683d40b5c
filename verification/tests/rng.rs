use ferrum_core::rng::Rng;
use ferrum_core::{Math, Tensor, F32};

struct Std;

impl Math for Std {
    fn exp(&self, x: F32) -> F32 {
        f(g(x).exp())
    }
    fn ln(&self, x: F32) -> F32 {
        f(g(x).ln())
    }
    fn tanh(&self, x: F32) -> F32 {
        f(g(x).tanh())
    }
    fn sin(&self, x: F32) -> F32 {
        f(g(x).sin())
    }
    fn cos(&self, x: F32) -> F32 {
        f(g(x).cos())
    }
    fn powi(&self, x: F32, n: i32) -> F32 {
        f(g(x).powi(n))
    }
    fn inv_freq(&self, base: F32, i: usize, dim: usize) -> F32 {
        f((g(base) as f64).powf(-2.0 * i as f64 / dim as f64) as f32)
    }
    fn norm(&self, v: &Vec<F32>) -> F32 {
        let sum: f64 = v.iter().map(|x| (g(*x) as f64) * (g(*x) as f64)).sum();
        f(sum.sqrt() as f32)
    }
}

fn f(x: f32) -> F32 {
    F32::from_bits(x.to_bits())
}

fn g(x: F32) -> f32 {
    f32::from_bits(x.to_bits())
}

#[allow(dead_code)]
fn fv(v: Vec<f32>) -> Vec<F32> {
    v.into_iter().map(f).collect()
}

#[allow(dead_code)]
fn gv(v: &[F32]) -> Vec<f32> {
    v.iter().map(|x| g(*x)).collect()
}

#[allow(dead_code)]
fn mat(r: usize, c: usize, v: Vec<f32>) -> Tensor {
    Tensor::matrix(r, c, fv(v)).unwrap()
}

#[allow(dead_code)]
fn vect(v: Vec<f32>) -> Tensor {
    Tensor::vector(fv(v))
}

#[test]
fn same_seed_same_sequence() {
    assert_eq!(
        {
            let mut r = Rng::new(42);
            (0..50).map(|_| r.next_u64()).collect::<Vec<_>>()
        },
        {
            let mut r = Rng::new(42);
            (0..50).map(|_| r.next_u64()).collect::<Vec<_>>()
        }
    );
}

#[test]
fn f32_in_unit_interval() {
    let mut r = Rng::new(7);
    for _ in 0..10_000 {
        let x = g(r.next_f32());
        assert!((0.0..1.0).contains(&x), "out of [0,1): {x}");
    }
}

#[test]
fn zero_seed_remapped() {
    let mut r = Rng::new(0);
    let vals: Vec<u64> = (0..10).map(|_| r.next_u64()).collect();
    assert!(vals.iter().any(|&v| v != 0));
}

#[test]
fn normal_mean_near_zero() {
    let mut r = Rng::new(99);
    let mean: f32 = (0..50_000).map(|_| g(r.next_normal(&Std))).sum::<f32>() / 50_000.0;
    assert!(mean.abs() < 0.05, "mean = {mean}");
}

#[test]
fn shuffled_indices_is_a_permutation() {
    let mut r = Rng::new(7);
    let n = 100;
    let perm = r.shuffled_indices(n);
    assert_eq!(perm.len(), n);
    let mut seen = perm.clone();
    seen.sort_unstable();
    assert_eq!(seen, (0..n).collect::<Vec<_>>(), "not a permutation of 0..n");
    assert!(Rng::new(1).shuffled_indices(0).is_empty());
    assert_eq!(Rng::new(1).shuffled_indices(1), vec![0]);
}

#[test]
fn shuffled_indices_is_deterministic_and_actually_shuffles() {
    assert_eq!(Rng::new(5).shuffled_indices(64), Rng::new(5).shuffled_indices(64));
    assert_ne!(Rng::new(5).shuffled_indices(64), (0..64).collect::<Vec<_>>());
}

#[test]
fn normal_std_near_one() {
    let mut r = Rng::new(88);
    let xs: Vec<f32> = (0..50_000).map(|_| g(r.next_normal(&Std))).collect();
    let mean = xs.iter().sum::<f32>() / xs.len() as f32;
    let var = xs.iter().map(|x| (x - mean).powi(2)).sum::<f32>() / xs.len() as f32;
    assert!((var.sqrt() - 1.0).abs() < 0.05, "std = {}", var.sqrt());
}

#[test]
fn a_resumed_generator_goes_on() {
    let mut a = Rng::new(11);
    for _ in 0..5 {
        a.next_u64();
    }
    let mut b = Rng::from_state(a.state());
    for _ in 0..20 {
        assert_eq!(a.next_u64(), b.next_u64());
    }
}

#[test]
fn the_first_output_of_seed_one() {
    let mut x = 1u64;
    x ^= x << 13;
    x ^= x >> 7;
    x ^= x << 17;
    assert_eq!(Rng::new(1).next_u64(), x.wrapping_mul(0x2545F4914F6CDD1D));
}
