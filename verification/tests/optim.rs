use ferrum_core::optim::{clip_grad_norm, Adam, LrDecay, LrSchedule, Sgd};
use ferrum_core::{Math, Tensor, F32};

struct Std;

impl Math for Std {
    fn exp(&self, x: F32) -> F32 {
        f(g(x).exp())
    }
    fn ln(&self, x: F32) -> F32 {
        f(g(x).ln())
    }
    fn tanh(&self, x: F32) -> F32 {
        f(g(x).tanh())
    }
    fn sin(&self, x: F32) -> F32 {
        f(g(x).sin())
    }
    fn cos(&self, x: F32) -> F32 {
        f(g(x).cos())
    }
    fn powi(&self, x: F32, n: i32) -> F32 {
        f(g(x).powi(n))
    }
    fn inv_freq(&self, base: F32, i: usize, dim: usize) -> F32 {
        f((g(base) as f64).powf(-2.0 * i as f64 / dim as f64) as f32)
    }
    fn norm(&self, v: &Vec<F32>) -> F32 {
        let sum: f64 = v.iter().map(|x| (g(*x) as f64) * (g(*x) as f64)).sum();
        f(sum.sqrt() as f32)
    }
}

fn f(x: f32) -> F32 {
    F32::from_bits(x.to_bits())
}

fn g(x: F32) -> f32 {
    f32::from_bits(x.to_bits())
}

#[allow(dead_code)]
fn fv(v: Vec<f32>) -> Vec<F32> {
    v.into_iter().map(f).collect()
}

#[allow(dead_code)]
fn gv(v: &[F32]) -> Vec<f32> {
    v.iter().map(|x| g(*x)).collect()
}

#[allow(dead_code)]
fn mat(r: usize, c: usize, v: Vec<f32>) -> Tensor {
    Tensor::matrix(r, c, fv(v)).unwrap()
}

#[allow(dead_code)]
fn vect(v: Vec<f32>) -> Tensor {
    Tensor::vector(fv(v))
}

fn zeros(n: usize) -> Tensor {
    vect(vec![0.0; n])
}

#[test]
fn plain_sgd_descends() {
    let opt = Sgd::new(f(0.1));
    let mut p = Tensor::vector(fv(vec![2.0]));
    let gr = Tensor::vector(fv(vec![10.0]));
    let mut v = zeros(1);
    opt.step(&mut p, &gr, &mut v).unwrap();
    assert!((g(p.data[0]) - 1.0).abs() < 1e-6);
}

#[test]
fn momentum_accumulates_over_steps() {
    let opt = Sgd::with_momentum(f(1.0), f(0.9));
    let mut p = Tensor::vector(fv(vec![0.0]));
    let gr = Tensor::vector(fv(vec![1.0]));
    let mut v = zeros(1);
    opt.step(&mut p, &gr, &mut v).unwrap();
    opt.step(&mut p, &gr, &mut v).unwrap();
    assert!((g(v.data[0]) - 1.9).abs() < 1e-6);
    assert!((g(p.data[0]) + 2.9).abs() < 1e-6);
}

#[test]
fn shape_mismatch_errors() {
    let opt = Sgd::new(f(0.1));
    let mut p = Tensor::vector(fv(vec![1.0, 2.0]));
    let gr = Tensor::vector(fv(vec![1.0]));
    let mut v = zeros(2);
    assert!(opt.step(&mut p, &gr, &mut v).is_err());
}

#[test]
fn zero_lr_no_update() {
    let opt = Sgd::new(f(0.0));
    let mut p = Tensor::vector(fv(vec![5.0]));
    let gr = Tensor::vector(fv(vec![100.0]));
    let mut v = zeros(1);
    opt.step(&mut p, &gr, &mut v).unwrap();
    assert_eq!(g(p.data[0]), 5.0);
}

#[test]
fn adam_first_step_moves_by_lr() {
    let opt = Adam::new(f(0.1));
    let mut p = Tensor::vector(fv(vec![1.0]));
    let gr = Tensor::vector(fv(vec![3.0]));
    let mut m = zeros(1);
    let mut v = zeros(1);
    opt.step(&Std, 1, &mut p, &gr, &mut m, &mut v).unwrap();
    assert!((g(p.data[0]) - 0.9).abs() < 1e-4, "got {}", g(p.data[0]));
}

#[test]
fn adam_minimises_quadratic() {
    let opt = Adam::new(f(0.1));
    let mut p = Tensor::vector(fv(vec![0.0]));
    let mut m = zeros(1);
    let mut v = zeros(1);
    for t in 1..=500u64 {
        let gr = vect(vec![2.0 * (g(p.data[0]) - 3.0)]);
        opt.step(&Std, t, &mut p, &gr, &mut m, &mut v).unwrap();
    }
    assert!((g(p.data[0]) - 3.0).abs() < 0.01, "converged to {}", g(p.data[0]));
}

#[test]
fn adam_shape_mismatch_errors() {
    let opt = Adam::new(f(0.1));
    let mut p = Tensor::vector(fv(vec![1.0, 2.0]));
    let gr = Tensor::vector(fv(vec![1.0]));
    let mut m = zeros(2);
    let mut v = zeros(2);
    assert!(opt.step(&Std, 1, &mut p, &gr, &mut m, &mut v).is_err());
}


#[test]
fn adamw_decoupled_decay_shrinks_toward_zero() {
    let opt = Adam::with_weight_decay(f(0.1), f(0.5));
    let mut p = Tensor::vector(fv(vec![10.0]));
    let gr = zeros(1);
    let mut m = zeros(1);
    let mut v = zeros(1);
    opt.step(&Std, 1, &mut p, &gr, &mut m, &mut v).unwrap();
    assert!((g(p.data[0]) - 9.5).abs() < 1e-5, "got {}", g(p.data[0]));
}

#[test]
fn adamw_zero_decay_matches_plain_adam() {
    let wd0 = Adam::with_weight_decay(f(0.1), f(0.0));
    let plain = Adam::new(f(0.1));
    let run = |opt: &Adam| {
        let mut p = Tensor::vector(fv(vec![1.0]));
        let gr = Tensor::vector(fv(vec![3.0]));
        let mut m = zeros(1);
        let mut v = zeros(1);
        opt.step(&Std, 1, &mut p, &gr, &mut m, &mut v).unwrap();
        g(p.data[0])
    };
    assert_eq!(run(&wd0), run(&plain));
}

#[test]
fn adam_zero_timestep_errors() {
    let opt = Adam::new(f(0.1));
    let mut p = Tensor::vector(fv(vec![1.0]));
    let gr = Tensor::vector(fv(vec![1.0]));
    let mut m = zeros(1);
    let mut v = zeros(1);
    assert!(opt.step(&Std, 0, &mut p, &gr, &mut m, &mut v).is_err());
}


#[test]
fn clip_reports_global_norm_across_tensors() {
    let mut grads = vec![vect(vec![3.0, 4.0]), vect(vec![12.0])];
    let norm = g(clip_grad_norm(&Std, &mut grads, f(1e9)));
    assert!((norm - 13.0).abs() < 1e-5, "global norm = {norm}");
    assert_eq!(grads[0].data, fv(vec![3.0, 4.0]));
    assert_eq!(grads[1].data, fv(vec![12.0]));
}

#[test]
fn clip_rescales_to_max_norm_preserving_direction() {
    let mut grads = vec![vect(vec![3.0, 4.0]), vect(vec![12.0])];
    let pre = g(clip_grad_norm(&Std, &mut grads, f(6.5)));
    assert!((pre - 13.0).abs() < 1e-5);
    assert!((g(grads[0].data[0]) - 1.5).abs() < 1e-5);
    assert!((g(grads[0].data[1]) - 2.0).abs() < 1e-5);
    assert!((g(grads[1].data[0]) - 6.0).abs() < 1e-5);
    let post = (g(grads[0].data[0]).powi(2) + g(grads[0].data[1]).powi(2) + g(grads[1].data[0]).powi(2)).sqrt();
    assert!((post - 6.5).abs() < 1e-4, "post-clip norm = {post}");
}

#[test]
fn clip_noop_when_within_budget() {
    let mut grads = vec![vect(vec![0.3, 0.4])];
    let norm = g(clip_grad_norm(&Std, &mut grads, f(1.0)));
    assert!((norm - 0.5).abs() < 1e-6);
    assert_eq!(grads[0].data, fv(vec![0.3, 0.4]));
}

#[test]
fn clip_disabled_for_nonpositive_max_norm() {
    let mut grads = vec![vect(vec![3.0, 4.0])];
    let norm = g(clip_grad_norm(&Std, &mut grads, f(0.0)));
    assert!((norm - 5.0).abs() < 1e-6);
    assert_eq!(grads[0].data, fv(vec![3.0, 4.0]));
}


#[test]
fn schedule_warmup_ramps_linearly_to_base() {
    let s = LrSchedule::warmup_cosine(f(0.1), 10, 100);
    assert!((g(s.lr_at(&Std, 1)) - 0.01).abs() < 1e-6);
    assert!((g(s.lr_at(&Std, 5)) - 0.05).abs() < 1e-6);
    assert!((g(s.lr_at(&Std, 10)) - 0.1).abs() < 1e-6, "peak at warmup end");
    assert!(g(s.lr_at(&Std, 11)) < 0.1);
}

#[test]
fn cosine_decays_from_base_to_min() {
    let s = LrSchedule::warmup_cosine(f(0.2), 10, 110);
    assert!(
        (g(s.lr_at(&Std, 60)) - 0.1).abs() < 1e-3,
        "cosine midpoint = {}",
        g(s.lr_at(&Std, 60))
    );
    assert!(g(s.lr_at(&Std, 110)).abs() < 1e-6);
    assert!(g(s.lr_at(&Std, 500)).abs() < 1e-6);
    let mut prev = g(s.lr_at(&Std, 10));
    for step in 11..=110 {
        let cur = g(s.lr_at(&Std, step));
        assert!(cur <= prev + 1e-6, "decay not monotonic at {step}");
        prev = cur;
    }
}

#[test]
fn linear_decay_hits_midpoint_and_floor() {
    let s = LrSchedule {
        base_lr: f(1.0),
        min_lr: f(0.2),
        warmup_steps: 0,
        total_steps: 100,
        decay: LrDecay::Linear,
    };
    assert!((g(s.lr_at(&Std, 1)) - 0.992).abs() < 1e-3);
    assert!(
        (g(s.lr_at(&Std, 50)) - 0.6).abs() < 1e-3,
        "linear midpoint = {}",
        g(s.lr_at(&Std, 50))
    );
    assert!((g(s.lr_at(&Std, 100)) - 0.2).abs() < 1e-6);
    assert!((g(s.lr_at(&Std, 200)) - 0.2).abs() < 1e-6);
}

#[test]
fn schedule_clamps_step_below_one() {
    let s = LrSchedule::warmup_linear(f(0.5), 4, 40);
    assert_eq!(g(s.lr_at(&Std, 0)), g(s.lr_at(&Std, 1)));
}

#[test]
fn schedules_peak_exactly_and_end_at_the_least_rate() {
    for warmup in [1, 3, 7, 10, 1_000_003] {
        let s = LrSchedule::warmup_cosine(f(0.1), warmup, 2 * warmup);
        assert_eq!(g(s.lr_at(&Std, warmup)), 0.1);
        assert_eq!(g(s.lr_at(&Std, 2 * warmup)), 0.0);
        assert_eq!(g(s.lr_at(&Std, u64::MAX)), 0.0);
    }
}
