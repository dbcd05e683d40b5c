use ferrum_core::layer::Linear;
use ferrum_core::llm::{
    Attention, FeedForward, LlamaBlock, LlamaConfig, LlamaModel, RmsNorm, RopeType,
};
use ferrum_core::llm_train::LlamaTrainer;
use ferrum_core::optim::{Adam, LrSchedule};
use ferrum_core::quant::{fake_quantize_int8_per_channel, QKind, QWeight};
use ferrum_core::rng::Rng;
use ferrum_core::train_model::{backward_into, cross_entropy, forward_train, run_gradient};
use ferrum_core::train_ops::{norm_backward, norm_forward, silu_grad, swish, Rope};
use ferrum_core::train_params::Buffers;
use ferrum_core::{InferError, Math, Tensor, F32};

struct Std;

impl Math for Std {
    fn exp(&self, x: F32) -> F32 {
        f(g(x).exp())
    }
    fn ln(&self, x: F32) -> F32 {
        f(g(x).ln())
    }
    fn tanh(&self, x: F32) -> F32 {
        f(g(x).tanh())
    }
    fn sin(&self, x: F32) -> F32 {
        f(g(x).sin())
    }
    fn cos(&self, x: F32) -> F32 {
        f(g(x).cos())
    }
    fn powi(&self, x: F32, n: i32) -> F32 {
        f(g(x).powi(n))
    }
    fn inv_freq(&self, base: F32, i: usize, dim: usize) -> F32 {
        f((g(base) as f64).powf(-2.0 * i as f64 / dim as f64) as f32)
    }
    fn norm(&self, v: &Vec<F32>) -> F32 {
        let sum: f64 = v.iter().map(|x| (g(*x) as f64) * (g(*x) as f64)).sum();
        f(sum.sqrt() as f32)
    }
}

fn f(x: f32) -> F32 {
    F32::from_bits(x.to_bits())
}

fn g(x: F32) -> f32 {
    f32::from_bits(x.to_bits())
}

#[allow(dead_code)]
fn fv(v: Vec<f32>) -> Vec<F32> {
    v.into_iter().map(f).collect()
}

#[allow(dead_code)]
fn gv(v: &[F32]) -> Vec<f32> {
    v.iter().map(|x| g(*x)).collect()
}

#[allow(dead_code)]
fn mat(r: usize, c: usize, v: Vec<f32>) -> Tensor {
    Tensor::matrix(r, c, fv(v)).unwrap()
}

#[allow(dead_code)]
fn vect(v: Vec<f32>) -> Tensor {
    Tensor::vector(fv(v))
}

fn det(n: usize, seed: u64) -> Vec<f32> {
    let mut x = seed | 1;
    (0..n)
        .map(|_| {
            x ^= x << 13;
            x ^= x >> 7;
            x ^= x << 17;
            (x >> 40) as f32 / (1u64 << 23) as f32 - 1.0
        })
        .collect()
}

fn lin(in_f: usize, out_f: usize, seed: u64) -> Linear {
    let w: Vec<f32> = det(in_f * out_f, seed).iter().map(|v| v * 0.3).collect();
    Linear::new(in_f, out_f, fv(w), fv(vec![0.0; out_f])).unwrap()
}

fn tiny(
    vocab: usize,
    dim: usize,
    n_heads: usize,
    n_kv: usize,
    ffn: usize,
    n_layers: usize,
) -> LlamaModel {
    let hd = dim / n_heads;
    let cfg = LlamaConfig {
        vocab_size: vocab,
        model_dim: dim,
        n_layers,
        n_heads,
        n_kv_heads: n_kv,
        head_dim: hd,
        ffn_dim: ffn,
        rope_dim: hd,
        rope_base: f(10000.0),
        rope_type: RopeType::Norm,
        norm_eps: f(1e-5),
        context_len: 64,
    };
    let blocks = (0..n_layers)
        .map(|l| {
            let s = 100 + l as u64 * 50;
            LlamaBlock {
                attn_norm: RmsNorm::new(fv(vec![1.0; dim]), f(1e-5)),
                attn: Attention::new(
                    lin(dim, n_heads * hd, s),
                    lin(dim, n_kv * hd, s + 1),
                    lin(dim, n_kv * hd, s + 2),
                    lin(n_heads * hd, dim, s + 3),
                    n_heads,
                    n_kv,
                    hd,
                    hd,
                    f(10000.0),
                    RopeType::Norm,
                )
                .unwrap(),
                ffn_norm: RmsNorm::new(fv(vec![1.0; dim]), f(1e-5)),
                ffn: FeedForward::new(
                    lin(dim, ffn, s + 4),
                    lin(dim, ffn, s + 5),
                    lin(ffn, dim, s + 6),
                ),
            }
        })
        .collect();
    LlamaModel {
        cfg,
        tok_emb: det(vocab * dim, 7).iter().map(|v| f(v * 0.3)).collect(),
        blocks,
        final_norm: RmsNorm::new(fv(vec![1.0; dim]), f(1e-5)),
        lm_head: lin(dim, vocab, 999),
    }
}

fn flat(tr: &LlamaTrainer) -> Vec<f32> {
    tr.model_snapshot().iter().flat_map(|p| gv(p)).collect()
}

fn bump(x: &mut F32, d: f32) {
    *x = f(g(*x) + d);
}

#[test]
fn rmsnorm_backward_matches_finite_difference() {
    let d = 6;
    let x = det(d, 1);
    let w = det(d, 2).iter().map(|v| v + 1.0).collect::<Vec<_>>();
    let dy = det(d, 3);
    let row = |x: &[f32], w: &[f32]| norm_forward(&fv(x.to_vec()), &fv(w.to_vec()), f(1e-5), 1);
    let (_, inv) = row(&x, &w);
    let mut dw = fv(vec![0.0; d]);
    let dx = gv(&norm_backward(&fv(dy.clone()), &fv(x.clone()), &fv(w.clone()), &inv, 1, &mut dw));
    let dw = gv(&dw);
    let loss = |x: &[f32], w: &[f32]| {
        let (y, _) = row(x, w);
        gv(&y).iter().zip(&dy).map(|(a, b)| a * b).sum::<f32>()
    };
    let eps = 1e-3;
    for i in 0..d {
        let mut xp = x.clone();
        xp[i] += eps;
        let mut xm = x.clone();
        xm[i] -= eps;
        let fd = (loss(&xp, &w) - loss(&xm, &w)) / (2.0 * eps);
        assert!((fd - dx[i]).abs() < 1e-2, "dx[{i}] fd={fd} got={}", dx[i]);
        let mut wp = w.clone();
        wp[i] += eps;
        let mut wm = w.clone();
        wm[i] -= eps;
        let fdw = (loss(&x, &wp) - loss(&x, &wm)) / (2.0 * eps);
        assert!((fdw - dw[i]).abs() < 1e-2, "dw[{i}] fd={fdw} got={}", dw[i]);
    }
}

#[test]
fn silu_grad_matches_finite_difference() {
    let silu = |x: f32| g(swish(&Std, f(x)));
    for &v in &[-2.0f32, -0.5, 0.0, 0.7, 3.0] {
        let fd = (silu(v + 1e-3) - silu(v - 1e-3)) / 2e-3;
        assert!((fd - g(silu_grad(&Std, f(v)))).abs() < 1e-3, "silu' at {v}");
    }
}

#[test]
fn rope_transpose_is_the_inverse_rotation() {
    let orig = det(8, 5);
    let rope = Rope { head_dim: 4, rope_dim: 4, base: f(10000.0), kind: RopeType::Norm };
    let there = rope.apply(&Std, &fv(orig.clone()), 2, 3, false);
    let back = rope.apply(&Std, &there, 2, 3, true);
    for (a, b) in gv(&back).iter().zip(&orig) {
        assert!((a - b).abs() < 1e-5);
    }
}

#[test]
fn end_to_end_gradient_matches_finite_difference() {
    let model = tiny(7, 8, 2, 1, 16, 2);
    let mut tr = LlamaTrainer::new(model).unwrap();
    let tokens = [1usize, 3, 0, 5, 2];
    tr.loss_and_backward(&Std, &tokens).unwrap();

    let eps = 1e-3;
    let check = |gr: f32,
                 set: &mut dyn FnMut(&mut LlamaTrainer, f32),
                 tr: &mut LlamaTrainer,
                 label: &str| {
        set(tr, eps);
        let lp = g(tr.loss(&Std, &tokens).unwrap());
        set(tr, -2.0 * eps);
        let lm = g(tr.loss(&Std, &tokens).unwrap());
        set(tr, eps);
        let fd = (lp - lm) / (2.0 * eps);
        assert!((fd - gr).abs() < 3e-2, "{label} fd={fd} got={gr}");
    };
    let gr = g(tr.grads.tok_emb[3 * 8 + 2]);
    check(gr, &mut |t, d| bump(&mut t.model.tok_emb[3 * 8 + 2], d), &mut tr, "tok_emb");
    let gr = g(tr.grads.blocks[0].wq.w[5]);
    check(gr, &mut |t, d| bump(&mut t.model.blocks[0].attn.wq.weight.data[5], d), &mut tr, "wq");
    let gr = g(tr.grads.blocks[1].down.w[9]);
    check(gr, &mut |t, d| bump(&mut t.model.blocks[1].ffn.down.weight.data[9], d), &mut tr, "down");
    let gr = g(tr.grads.blocks[0].attn_norm[3]);
    check(gr, &mut |t, d| bump(&mut t.model.blocks[0].attn_norm.weight[3], d), &mut tr, "attn_norm");
    let gr = g(tr.grads.lm_head.w[4]);
    check(gr, &mut |t, d| bump(&mut t.model.lm_head.weight.data[4], d), &mut tr, "lm_head");
}

#[test]
fn training_reduces_loss_on_a_memorizable_sequence() {
    let model = tiny(6, 16, 4, 2, 32, 2);
    let mut tr = LlamaTrainer::new(model).unwrap();
    tr.set_lr(f(0.01));
    let tokens = [1usize, 2, 3, 4, 5, 0, 1, 2];
    let l0 = g(tr.loss(&Std, &tokens).unwrap());
    let mut last = l0;
    for _ in 0..200 {
        last = g(tr.train_step(&Std, &tokens).unwrap());
    }
    let lf = g(tr.loss(&Std, &tokens).unwrap());
    assert!(lf < l0 * 0.5, "loss did not fall enough: {l0} → {lf} (last step {last})");
    assert!(lf.is_finite());
}

#[test]
fn rejects_quantized_model() {
    let mut model = tiny(6, 8, 2, 2, 16, 1);
    model.lm_head = model.lm_head.quantize(QKind::Int8);
    assert!(LlamaTrainer::new(model).is_err());
}

#[test]
fn adamw_weight_decay_shrinks_matrices_only() {
    let mut tr = LlamaTrainer::new(tiny(6, 8, 2, 2, 16, 1)).unwrap();
    tr.set_lr(f(0.5));
    tr.set_weight_decay(f(0.1));
    for v in tr.model.lm_head.weight.data.iter_mut() {
        *v = f(2.0);
    }
    for v in tr.model.lm_head.bias.data.iter_mut() {
        *v = f(2.0);
    }
    for v in tr.model.final_norm.weight.iter_mut() {
        *v = f(2.0);
    }
    tr.grads = Buffers::zeros(&tr.model);
    tr.apply_step(&Std);
    assert!((g(tr.model.lm_head.weight.data[0]) - 1.9).abs() < 1e-5, "matrix not decayed");
    assert!((g(tr.model.lm_head.bias.data[0]) - 2.0).abs() < 1e-6, "bias decayed");
    assert!((g(tr.model.final_norm.weight[0]) - 2.0).abs() < 1e-6, "norm decayed");
}

#[test]
fn batch_equals_accumulated_singletons() {
    let base = tiny(6, 8, 2, 2, 16, 1);
    let s0 = [1usize, 2, 3, 4];
    let s1 = [5usize, 0, 1, 2];

    let mut a = LlamaTrainer::new(base.clone()).unwrap();
    a.set_lr(f(0.05));
    a.train_batch(&Std, &[&s0, &s1]).unwrap();

    let mut b = LlamaTrainer::new(base.clone()).unwrap();
    b.set_lr(f(0.05));
    let (_, g0) = run_gradient(&Std, &b.model, &s0, f(0.0), 0).unwrap();
    let (_, g1) = run_gradient(&Std, &b.model, &s1, f(0.0), 0).unwrap();
    let avg: Vec<Vec<F32>> = g0
        .to_parts()
        .iter()
        .zip(&g1.to_parts())
        .map(|(p, q)| p.iter().zip(q).map(|(x, y)| f(0.5 * (g(*x) + g(*y)))).collect())
        .collect();
    b.grads.load_parts(&avg);
    b.apply_step(&Std);

    let (x, y) = (gv(&a.model.lm_head.weight.data), gv(&b.model.lm_head.weight.data));
    for (x, y) in x.iter().zip(&y) {
        assert!((x - y).abs() < 1e-6, "batch != hand-averaged: {x} vs {y}");
    }
}

#[test]
fn finetune_epoch_reduces_loss() {
    let mut tr = LlamaTrainer::new(tiny(5, 16, 4, 2, 32, 2)).unwrap();
    tr.set_lr(f(0.01));
    let tokens: Vec<usize> = (0..120).map(|i| i % 5).collect();
    let mut rng = Rng::new(7);
    let first = g(tr.finetune_epoch(&Std, &tokens, 8, 8, &mut rng).unwrap());
    let mut last = first;
    for _ in 0..15 {
        last = g(tr.finetune_epoch(&Std, &tokens, 8, 8, &mut rng).unwrap());
    }
    assert!(last < first * 0.7, "epoch training did not reduce loss: {first:.4} → {last:.4}");
}

#[test]
fn threaded_one_shard_matches_serial_bitwise() {
    let base = tiny(6, 8, 2, 2, 16, 1);
    let tokens: Vec<usize> = (0..80).map(|i| (i * 7) % 6).collect();

    let mut serial = LlamaTrainer::new(base.clone()).unwrap();
    serial.set_lr(f(0.02));
    let mut rs = Rng::new(99);
    let ls = serial.finetune_epoch_threaded(&Std, &tokens, 6, 8, &mut rs, 1).unwrap();

    let mut threaded = LlamaTrainer::new(base.clone()).unwrap();
    threaded.set_lr(f(0.02));
    let mut rt = Rng::new(99);
    let lt = threaded.finetune_epoch_threaded(&Std, &tokens, 6, 8, &mut rt, 1).unwrap();

    assert_eq!(ls, lt);
    for (x, y) in flat(&serial).iter().zip(&flat(&threaded)) {
        assert_eq!(x, y, "single-shard threaded diverged from serial");
    }
}

#[test]
fn threaded_multishard_matches_serial_closely() {
    let base = tiny(6, 8, 2, 2, 16, 1);
    let tokens: Vec<usize> = (0..80).map(|i| (i * 7) % 6).collect();

    let mut serial = LlamaTrainer::new(base.clone()).unwrap();
    serial.set_lr(f(0.02));
    let mut rs = Rng::new(1);
    for _ in 0..3 {
        serial.finetune_epoch_threaded(&Std, &tokens, 6, 16, &mut rs, 1).unwrap();
    }
    let mut par = LlamaTrainer::new(base.clone()).unwrap();
    par.set_lr(f(0.02));
    let mut rp = Rng::new(1);
    for _ in 0..3 {
        par.finetune_epoch_threaded(&Std, &tokens, 6, 16, &mut rp, 4).unwrap();
    }
    for (x, y) in flat(&serial).iter().zip(&flat(&par)) {
        assert!((x - y).abs() < 1e-4, "multishard drifted: {x} vs {y}");
    }
}

#[test]
fn lr_schedule_changes_trajectory() {
    let base = tiny(5, 16, 4, 2, 32, 1);
    let tokens: Vec<usize> = (0..100).map(|i| i % 5).collect();

    let mut fixed = LlamaTrainer::new(base.clone()).unwrap();
    fixed.set_lr(f(0.02));
    let mut rf = Rng::new(5);
    for _ in 0..5 {
        fixed.finetune_epoch(&Std, &tokens, 8, 8, &mut rf).unwrap();
    }

    let mut sched = LlamaTrainer::new(base.clone()).unwrap();
    sched.set_lr(f(0.02));
    let steps_per_epoch = (tokens.len() - 8 + 1).div_ceil(8) as u64;
    sched.set_lr_schedule(Some(LrSchedule::warmup_cosine(
        f(0.02),
        steps_per_epoch,
        steps_per_epoch * 5,
    )));
    let mut rsc = Rng::new(5);
    for _ in 0..5 {
        sched.finetune_epoch(&Std, &tokens, 8, 8, &mut rsc).unwrap();
    }
    assert_eq!(sched.step_count(), steps_per_epoch * 5);
    let differ = flat(&fixed).iter().zip(&flat(&sched)).any(|(a, b)| (a - b).abs() > 1e-6);
    assert!(differ, "schedule had no effect");
}

#[test]
fn grad_clip_caps_norm_and_stays_finite() {
    let mut tr = LlamaTrainer::new(tiny(6, 8, 2, 2, 16, 1)).unwrap();
    let tokens = [1usize, 2, 3, 4];
    tr.loss_and_backward(&Std, &tokens).unwrap();
    let pre = g(tr.clip_grad_norm(&Std, f(0.05)));
    let mut sumsq = 0.0f64;
    for s in tr.grads.to_parts() {
        for x in gv(&s) {
            sumsq += (x as f64) * (x as f64);
        }
    }
    let post = sumsq.sqrt() as f32;
    assert!(pre > 0.05, "test needs a larger pre-clip norm: {pre}");
    assert!(post <= 0.05 + 1e-4, "post-clip {post} exceeds budget");
}

#[test]
fn dropout_off_matches_plain_and_gradient_is_correct() {
    let model = tiny(5, 8, 2, 2, 16, 1);
    let tokens = [1usize, 2, 3, 4];
    let a = forward_train(&Std, &model, &tokens, f(0.0), 123).unwrap();
    let b = forward_train(&Std, &model, &tokens, f(0.0), 999).unwrap();
    assert_eq!(a.logits, b.logits);

    let c = forward_train(&Std, &model, &tokens, f(0.5), 7).unwrap();
    let d = forward_train(&Std, &model, &tokens, f(0.5), 7).unwrap();
    let e = forward_train(&Std, &model, &tokens, f(0.5), 8).unwrap();
    assert_eq!(c.logits, d.logits);
    assert_ne!(c.logits, e.logits);

    let mut tr = LlamaTrainer::new(model.clone()).unwrap();
    let (seed, p) = (77u64, f(0.5));
    let cache = forward_train(&Std, &tr.model, &tokens, p, seed).unwrap();
    let (_, dl) = cross_entropy(&Std, &cache.logits, &tokens, 5);
    tr.grads = Buffers::zeros(&tr.model);
    backward_into(&Std, &tr.model, &cache, &dl, &tokens, &mut tr.grads);
    let eps = 1e-2f32;
    let loss = |tr: &LlamaTrainer| {
        let logits = forward_train(&Std, &tr.model, &tokens, p, seed).unwrap().logits;
        g(cross_entropy(&Std, &logits, &tokens, 5).0)
    };
    for &i in &[0usize, 7, 15] {
        let gr = g(tr.grads.blocks[0].down.w[i]);
        bump(&mut tr.model.blocks[0].ffn.down.weight.data[i], eps);
        let lp = loss(&tr);
        bump(&mut tr.model.blocks[0].ffn.down.weight.data[i], -2.0 * eps);
        let lm = loss(&tr);
        bump(&mut tr.model.blocks[0].ffn.down.weight.data[i], eps);
        let fd = (lp - lm) / (2.0 * eps);
        assert!((fd - gr).abs() < 6e-3 + 0.03 * gr.abs(), "down.w[{i}] fd={fd} got={gr}");
    }
}

#[test]
fn qat_training_reduces_loss_and_survives_quant() {
    let mut tr = LlamaTrainer::new(tiny(6, 16, 4, 2, 32, 2)).unwrap();
    tr.set_qat(true);
    assert!(tr.qat_enabled());
    tr.set_lr(f(0.01));
    let tokens = [1usize, 2, 3, 4, 5, 0, 1, 2];
    let l0 = g(tr.loss(&Std, &tokens).unwrap());
    let mut last = l0;
    for _ in 0..200 {
        last = g(tr.train_step(&Std, &tokens).unwrap());
    }
    assert!(last < l0 * 0.6, "QAT did not reduce loss: {l0} → {last}");
    assert!(last.is_finite());
}

#[test]
fn checkpoint_resume_matches_uninterrupted() {
    let base = tiny(6, 8, 2, 2, 16, 2);
    let tokens: Vec<usize> = (0..100).map(|i| (i * 7) % 6).collect();

    let mut a = LlamaTrainer::new(base.clone()).unwrap();
    a.set_lr(f(0.02));
    let mut ra = Rng::new(123);
    for _ in 0..6 {
        a.finetune_epoch(&Std, &tokens, 6, 16, &mut ra).unwrap();
    }

    let mut b = LlamaTrainer::new(base.clone()).unwrap();
    b.set_lr(f(0.02));
    let mut rb = Rng::new(123);
    for _ in 0..3 {
        b.finetune_epoch(&Std, &tokens, 6, 16, &mut rb).unwrap();
    }
    let bytes = b.save_checkpoint(&rb);
    let mut c = LlamaTrainer::new(base.clone()).unwrap();
    c.set_lr(f(0.02));
    let mut rc = c.load_checkpoint_into(&bytes).unwrap();
    for _ in 0..3 {
        c.finetune_epoch(&Std, &tokens, 6, 16, &mut rc).unwrap();
    }

    assert_eq!(a.step_count(), c.step_count());
    for (x, y) in flat(&a).iter().zip(&flat(&c)) {
        assert!((x - y).abs() < 1e-5, "resumed run diverged: {x} vs {y}");
    }
}

#[test]
fn checkpoint_rejects_corrupt_and_mismatched() {
    let mut tr = LlamaTrainer::new(tiny(6, 8, 2, 2, 16, 1)).unwrap();
    assert!(tr.load_checkpoint_into(b"").is_err());
    assert!(tr.load_checkpoint_into(b"XXXXjunk").is_err());
    let other = LlamaTrainer::new(tiny(7, 8, 2, 2, 16, 1)).unwrap();
    let bytes = other.save_checkpoint(&Rng::new(1));
    assert!(tr.load_checkpoint_into(&bytes).is_err());
}

#[test]
fn a_checkpoint_is_taken_over_whole() {
    let mut a = LlamaTrainer::new(tiny(6, 8, 2, 2, 16, 1)).unwrap();
    a.set_qat(true);
    a.train_step(&Std, &[1, 2, 3]).unwrap();
    let rng = Rng::new(9);
    let bytes = a.save_checkpoint(&rng);
    assert_eq!(bytes.len(), 53 + 12 * a.num_params());
    let mut b = LlamaTrainer::new(tiny(6, 8, 2, 2, 16, 1)).unwrap();
    let back = b.load_checkpoint_into(&bytes).unwrap();
    assert_eq!(back.state(), rng.state());
    assert!(b.qat_enabled() && b.step_count() == 1);
    assert_eq!(b.model_snapshot(), a.model_snapshot());
    assert_eq!(b.m.to_parts(), a.m.to_parts());
    assert_eq!(b.v.to_parts(), a.v.to_parts());
    assert_eq!(b.save_checkpoint(&back), bytes);
    assert!(b.load_checkpoint_into(&bytes[..bytes.len() - 1]).is_err());
}

#[test]
fn bad_minibatches_are_refused() {
    let mut tr = LlamaTrainer::new(tiny(6, 8, 2, 2, 16, 1)).unwrap();
    assert!(matches!(tr.train_batch(&Std, &[]), Err(InferError::DimMismatch(_))));
    assert!(matches!(tr.train_step(&Std, &[1, 6]), Err(InferError::DimMismatch(_))));
    assert!(tr.finetune_epoch(&Std, &[1, 2, 3], 8, 2, &mut Rng::new(1)).is_err());
    assert_eq!(tr.step_count(), 0);
}

#[test]
fn settings_are_kept() {
    let mut tr = LlamaTrainer::new(tiny(6, 8, 2, 2, 16, 1)).unwrap();
    tr.set_grad_clip(Some(f(0.5)));
    assert_eq!(tr.grad_clip().map(g), Some(0.5));
    tr.set_dropout(f(0.25));
    assert_eq!(g(tr.dropout()), 0.25);
    tr.set_dropout(f(2.0));
    assert_eq!(g(tr.dropout()), 0.95);
    tr.set_dropout(f(-1.0));
    assert_eq!(g(tr.dropout()), 0.0);
    tr.set_optimizer(Adam::with_weight_decay(f(0.01), f(0.1)));
    assert_eq!((g(tr.adam.lr), g(tr.weight_decay)), (0.01, 0.1f32));
    tr.set_optimizer(Adam::new(f(0.02)));
    assert_eq!((g(tr.adam.lr), g(tr.weight_decay)), (0.02, 0.1f32));
}

#[test]
fn a_refused_step_leaves_the_parameters() {
    let mut tr = LlamaTrainer::new(tiny(6, 8, 2, 2, 16, 1)).unwrap();
    let before = flat(&tr);
    assert!(tr.train_batch(&Std, &[&[1, 2, 3], &[1, 6, 2]]).is_err());
    assert_eq!(flat(&tr), before);
    let first = tr.grads.to_parts();
    assert!(first.iter().any(|p| gv(p).iter().any(|x| *x != 0.0)));
    assert!(tr.step_over_windows(&Std, &[&[1, 6, 2], &[1, 2, 3]], 0, 2).is_err());
    assert_eq!(flat(&tr), before);
    assert_eq!(tr.grads.to_parts(), first);
    assert_eq!(tr.step_count(), 0);
}

#[test]
fn a_refused_step_leaves_matrices_on_their_grids() {
    for threads in [1, 2] {
        let mut tr = LlamaTrainer::new(tiny(6, 8, 2, 2, 16, 1)).unwrap();
        tr.set_qat(true);
        let mut grid = tr.model.blocks[0].attn.wq.weight.data.clone();
        let norm = tr.model.blocks[0].attn_norm.weight.clone();
        assert!(tr.step_over_windows(&Std, &[&[1, 2, 3], &[1, 6, 2]], 0, threads).is_err());
        assert_ne!(tr.model.blocks[0].attn.wq.weight.data, grid);
        assert!(fake_quantize_int8_per_channel(&mut grid, 8));
        assert_eq!(tr.model.blocks[0].attn.wq.weight.data, grid);
        assert_eq!(tr.model.blocks[0].attn_norm.weight, norm);
        assert_eq!(tr.step_count(), 0);
    }
}

#[test]
fn checkpoints_of_other_shapes_change_nothing() {
    let mut a = LlamaTrainer::new(tiny(6, 8, 2, 2, 16, 1)).unwrap();
    a.train_step(&Std, &[1, 2, 3]).unwrap();
    let bytes = a.save_checkpoint(&Rng::new(5));
    let mut b = LlamaTrainer::new(tiny(6, 8, 2, 2, 16, 2)).unwrap();
    let before = b.save_checkpoint(&Rng::new(5));
    assert!(matches!(b.load_checkpoint_into(&bytes), Err(InferError::Format(_))));
    assert_eq!(b.save_checkpoint(&Rng::new(5)), before);
    let mut c = LlamaTrainer::new(tiny(6, 8, 2, 2, 16, 1)).unwrap();
    let rng = c.load_checkpoint_into(&bytes).unwrap();
    assert_eq!(c.save_checkpoint(&rng), bytes);
}

#[test]
fn a_quantized_layer_is_named() {
    let mut m = tiny(6, 8, 2, 2, 16, 2);
    let w = QWeight::from_f32(&m.blocks[1].ffn.up.weight.data, 8, 16, QKind::Int8);
    m.blocks[1].ffn.up = Linear::quantized(8, 16, w, fv(vec![0.0; 16])).unwrap();
    match LlamaTrainer::new(m) {
        Err(InferError::DimMismatch(t)) => assert_eq!(
            t,
            "block 1 ffn_up is quantized; training needs f32 weights \
             (load with load_llama_prec(None))"
        ),
        _ => panic!("a layer is quantized"),
    }
}
