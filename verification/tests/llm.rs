use ferrum_core::decoder::Sampler;
use ferrum_core::layer::{Forward, Linear};
use ferrum_core::llm::{
    apply_rope, Attention, FeedForward, KvLayer, LlamaBlock, LlamaCache, LlamaConfig, LlamaModel,
    RmsNorm, RopeType,
};
use ferrum_core::rng::Rng;
use ferrum_core::{InferError, Math, Tensor, F32};

struct Std;

impl Math for Std {
    fn exp(&self, x: F32) -> F32 {
        f(g(x).exp())
    }
    fn ln(&self, x: F32) -> F32 {
        f(g(x).ln())
    }
    fn tanh(&self, x: F32) -> F32 {
        f(g(x).tanh())
    }
    fn sin(&self, x: F32) -> F32 {
        f(g(x).sin())
    }
    fn cos(&self, x: F32) -> F32 {
        f(g(x).cos())
    }
    fn powi(&self, x: F32, n: i32) -> F32 {
        f(g(x).powi(n))
    }
    fn inv_freq(&self, base: F32, i: usize, dim: usize) -> F32 {
        f((g(base) as f64).powf(-2.0 * i as f64 / dim as f64) as f32)
    }
    fn norm(&self, v: &Vec<F32>) -> F32 {
        let sum: f64 = v.iter().map(|x| (g(*x) as f64) * (g(*x) as f64)).sum();
        f(sum.sqrt() as f32)
    }
}

fn f(x: f32) -> F32 {
    F32::from_bits(x.to_bits())
}

fn g(x: F32) -> f32 {
    f32::from_bits(x.to_bits())
}

#[allow(dead_code)]
fn fv(v: Vec<f32>) -> Vec<F32> {
    v.into_iter().map(f).collect()
}

#[allow(dead_code)]
fn gv(v: &[F32]) -> Vec<f32> {
    v.iter().map(|x| g(*x)).collect()
}

#[allow(dead_code)]
fn mat(r: usize, c: usize, v: Vec<f32>) -> Tensor {
    Tensor::matrix(r, c, fv(v)).unwrap()
}

#[allow(dead_code)]
fn vect(v: Vec<f32>) -> Tensor {
    Tensor::vector(fv(v))
}

/// Draws a token from the softmax of the scores over a temperature.
struct Tempered(f32);

impl Sampler for Tempered {
    fn sample(&self, scores: &Vec<F32>, _recent: &Vec<usize>, state: u64) -> (usize, u64) {
        let x: Vec<f32> = gv(scores).iter().map(|v| v / self.0).collect();
        let m = x.iter().copied().fold(f32::NEG_INFINITY, f32::max);
        let e: Vec<f32> = x.iter().map(|v| (v - m).exp()).collect();
        let mut rng = Rng::from_state(state);
        let mut left = g(rng.next_f32()) * e.iter().sum::<f32>();
        for (i, v) in e.iter().enumerate() {
            left -= v;
            if left < 0.0 {
                return (i, rng.state());
            }
        }
        (e.len() - 1, rng.state())
    }
}

fn rope(x: &mut Vec<f32>, heads: usize, hd: usize, rd: usize, pos: usize, base: f32, rt: RopeType) {
    let mut y = fv(x.clone());
    apply_rope(&Std, &mut y, heads, hd, rd, pos, f(base), rt);
    *x = gv(&y);
}

fn det(n: usize, seed: u64) -> Vec<f32> {
    let mut x = seed | 1;
    (0..n)
        .map(|_| {
            x ^= x << 13;
            x ^= x >> 7;
            x ^= x << 17;
            (x >> 40) as f32 / (1u64 << 23) as f32 - 1.0
        })
        .collect()
}

fn lin(in_f: usize, out_f: usize, seed: u64) -> Linear {
    Linear::new(in_f, out_f, fv(det(in_f * out_f, seed)), fv(vec![0.0; out_f])).unwrap()
}


#[test]
fn rmsnorm_matches_formula() {
    let w = vec![2.0f32, 0.5, 1.0, 1.5];
    let rn = RmsNorm::new(fv(w.clone()), f(1e-6));
    let x = vec![1.0f32, -2.0, 3.0, 0.5];
    let mut y = fv(vec![0.0; 4]);
    rn.forward_row(&fv(x.clone()), &mut y);
    let out = gv(&y);
    let ms = x.iter().map(|v| v * v).sum::<f32>() / 4.0;
    let inv = 1.0 / (ms + 1e-6).sqrt();
    for i in 0..4 {
        assert!((out[i] - x[i] * inv * w[i]).abs() < 1e-6);
    }
}

#[test]
fn rmsnorm_unit_weight_gives_unit_rms() {
    let rn = RmsNorm::new(fv(vec![1.0; 8]), f(1e-6));
    let x = det(8, 5);
    let mut y = fv(vec![0.0; 8]);
    rn.forward_row(&fv(x), &mut y);
    let out = gv(&y);
    let rms = (out.iter().map(|v| v * v).sum::<f32>() / 8.0).sqrt();
    assert!((rms - 1.0).abs() < 1e-3, "rms={rms}");
}


#[test]
fn rope_at_position_zero_is_identity() {
    for rt in [RopeType::Norm, RopeType::Neox] {
        let mut x = det(16, 9);
        let orig = x.clone();
        rope(&mut x, 2, 8, 8, 0, 10000.0, rt);
        for (a, b) in x.iter().zip(&orig) {
            assert!((a - b).abs() < 1e-6, "rope@0 changed values for {rt:?}");
        }
    }
}

#[test]
fn rope_preserves_per_pair_norm() {
    for rt in [RopeType::Norm, RopeType::Neox] {
        let mut x = det(8, 3);
        let n0 = x.iter().map(|v| v * v).sum::<f32>();
        rope(&mut x, 1, 8, 8, 5, 10000.0, rt);
        let n1 = x.iter().map(|v| v * v).sum::<f32>();
        assert!(
            (n0 - n1).abs() < 1e-4,
            "rope changed norm for {rt:?}: {n0} vs {n1}"
        );
    }
}

#[test]
fn rope_norm_and_neox_differ() {
    let base = det(8, 7);
    let mut a = base.clone();
    let mut b = base.clone();
    rope(&mut a, 1, 8, 8, 3, 10000.0, RopeType::Norm);
    rope(&mut b, 1, 8, 8, 3, 10000.0, RopeType::Neox);
    assert!(a.iter().zip(&b).any(|(x, y)| (x - y).abs() > 1e-3));
}


fn attention(dim: usize, n_heads: usize, n_kv: usize, hd: usize, seed: u64) -> Attention {
    let qd = n_heads * hd;
    let kvd = n_kv * hd;
    Attention::new(
        lin(dim, qd, seed),
        lin(dim, kvd, seed + 1),
        lin(dim, kvd, seed + 2),
        lin(qd, dim, seed + 3),
        n_heads,
        n_kv,
        hd,
        hd,
        f(10000.0),
        RopeType::Norm,
    )
    .unwrap()
}

#[test]
fn cached_attention_matches_full_mha() {
    let (dim, seq) = (16, 5);
    let attn = attention(dim, 4, 4, 4, 11);
    let x = Tensor::matrix(seq, dim, fv(det(seq * dim, 21))).unwrap();
    let full = attn.forward_full(&Std, &x).unwrap();

    let mut cache = KvLayer::new();
    for t in 0..seq {
        let row = &x.data[t * dim..(t + 1) * dim];
        let inc = attn.forward_one(&Std, row, t, &mut cache).unwrap();
        for (d, &got) in gv(&inc).iter().enumerate() {
            assert!(
                (got - g(full.data[t * dim + d])).abs() < 1e-4,
                "row {t} dim {d}: cached {got} vs full {}",
                g(full.data[t * dim + d])
            );
        }
    }
}

#[test]
fn cached_attention_matches_full_gqa() {
    let (dim, seq) = (24, 6);
    let attn = attention(dim, 6, 2, 4, 31);
    let x = Tensor::matrix(seq, dim, fv(det(seq * dim, 41))).unwrap();
    let full = attn.forward_full(&Std, &x).unwrap();
    let mut cache = KvLayer::new();
    for t in 0..seq {
        let inc = attn
            .forward_one(&Std, &x.data[t * dim..(t + 1) * dim], t, &mut cache)
            .unwrap();
        for (d, &got) in gv(&inc).iter().enumerate() {
            assert!((got - g(full.data[t * dim + d])).abs() < 1e-4);
        }
    }
}

#[test]
fn attention_rejects_bad_gqa() {
    let r = Attention::new(
        lin(8, 20, 1),
        lin(8, 8, 2),
        lin(8, 8, 3),
        lin(20, 8, 4),
        5,
        2,
        4,
        4,
        f(10000.0),
        RopeType::Norm,
    );
    assert!(r.is_err());
}


#[test]
fn swiglu_matches_manual() {
    let (dim, ffn) = (4, 6);
    let ff = FeedForward::new(lin(dim, ffn, 1), lin(dim, ffn, 2), lin(ffn, dim, 3));
    let x = Tensor::matrix(1, dim, fv(det(dim, 9))).unwrap();
    let got = ff.forward(&Std, &x).unwrap();

    let gt = ff.gate.forward(&Std, &x).unwrap();
    let u = ff.up.forward(&Std, &x).unwrap();
    let h: Vec<f32> = (0..ffn)
        .map(|i| (g(gt.data[i]) / (1.0 + (-g(gt.data[i])).exp())) * g(u.data[i]))
        .collect();
    let want = ff
        .down
        .forward(&Std, &Tensor::matrix(1, ffn, fv(h)).unwrap())
        .unwrap();
    for (a, b) in gv(&got.data).iter().zip(&gv(&want.data)) {
        assert!((a - b).abs() < 1e-6);
    }
    assert_eq!(got.shape, vec![1, dim]);
}


fn block(
    dim: usize,
    n_heads: usize,
    n_kv: usize,
    hd: usize,
    ffn: usize,
    seed: u64,
) -> LlamaBlock {
    LlamaBlock {
        attn_norm: RmsNorm::new(fv(vec![1.0; dim]), f(1e-6)),
        attn: attention(dim, n_heads, n_kv, hd, seed),
        ffn_norm: RmsNorm::new(fv(vec![1.0; dim]), f(1e-6)),
        ffn: FeedForward::new(
            lin(dim, ffn, seed + 10),
            lin(dim, ffn, seed + 11),
            lin(ffn, dim, seed + 12),
        ),
    }
}

#[test]
fn block_cached_matches_full() {
    let (dim, seq) = (16, 5);
    let b = block(dim, 4, 2, 4, 32, 51);
    let x = Tensor::matrix(seq, dim, fv(det(seq * dim, 61))).unwrap();
    let full = b.forward_full(&Std, &x).unwrap();
    let mut cache = KvLayer::new();
    for t in 0..seq {
        let inc = b
            .forward_one(&Std, &x.data[t * dim..(t + 1) * dim], t, &mut cache)
            .unwrap();
        for (d, &got) in gv(&inc).iter().enumerate() {
            assert!(
                (got - g(full.data[t * dim + d])).abs() < 1e-4,
                "block row {t} dim {d}"
            );
        }
    }
}

fn tiny_model() -> LlamaModel {
    let (vocab, dim, hd, ffn) = (12, 16, 4, 32);
    let cfg = LlamaConfig {
        vocab_size: vocab,
        model_dim: dim,
        n_layers: 2,
        n_heads: 4,
        n_kv_heads: 2,
        head_dim: hd,
        ffn_dim: ffn,
        rope_dim: hd,
        rope_base: f(10000.0),
        rope_type: RopeType::Norm,
        norm_eps: f(1e-6),
        context_len: 32,
    };
    LlamaModel {
        cfg,
        tok_emb: fv(det(vocab * dim, 71)),
        blocks: vec![block(dim, 4, 2, hd, ffn, 81), block(dim, 4, 2, hd, ffn, 91)],
        final_norm: RmsNorm::new(fv(vec![1.0; dim]), f(1e-6)),
        lm_head: lin(dim, vocab, 101),
    }
}

#[test]
fn model_cached_decode_matches_full_forward() {
    let model = tiny_model();
    let tokens = [3usize, 7, 1, 9, 4, 0];
    let full = model.forward_tokens(&Std, &tokens).unwrap();
    let (_, vocab) = full.matrix_dims().unwrap();

    let mut cache = LlamaCache::new(model.blocks.len());
    for (t, &tok) in tokens.iter().enumerate() {
        let logits = gv(&model.forward_one(&Std, tok, &mut cache).unwrap());
        let row = gv(&full.data[t * vocab..(t + 1) * vocab]);
        for v in 0..vocab {
            assert!(
                (logits[v] - row[v]).abs() < 1e-3,
                "step {t} vocab {v}: cached {} vs full {}",
                logits[v],
                row[v]
            );
        }
    }
    assert_eq!(cache.pos(), tokens.len());
}

#[test]
fn generate_is_deterministic_and_respects_eos() {
    let model = tiny_model();
    let params = Tempered(0.8);
    let a = model
        .generate(&Std, &[1, 2, 3], 10, &params, None, &mut Rng::new(7))
        .unwrap();
    let b = model
        .generate(&Std, &[1, 2, 3], 10, &params, None, &mut Rng::new(7))
        .unwrap();
    assert_eq!(a, b, "generation must be deterministic for a fixed seed");
    assert_eq!(a.len(), 10);
    assert!(a.iter().all(|&t| t < model.cfg.vocab_size));

    let greedy = Tempered(0.01);
    let first = model
        .generate(&Std, &[1, 2, 3], 1, &greedy, None, &mut Rng::new(1))
        .unwrap()[0];
    let stopped = model
        .generate(&Std, &[1, 2, 3], 10, &greedy, Some(first), &mut Rng::new(1))
        .unwrap();
    assert_eq!(
        stopped,
        vec![first],
        "should stop at eos on the first token"
    );
}

#[test]
fn embed_rejects_out_of_range_token() {
    let model = tiny_model();
    assert!(model.embed(999).is_err());
}

#[test]
fn rmsnorm_forward_multirow_and_width_check() {
    let rn = RmsNorm::new(fv(vec![1.0; 4]), f(1e-6));
    let x = Tensor::matrix(2, 4, fv(det(8, 1))).unwrap();
    let y = rn.forward(&x).unwrap();
    assert_eq!(y.shape, vec![2, 4]);
    let bad = Tensor::matrix(1, 3, fv(vec![0.0; 3])).unwrap();
    assert!(rn.forward(&bad).is_err());
}

#[test]
fn attention_rejects_odd_or_oversized_rope_dim() {
    assert!(Attention::new(
        lin(8, 8, 1),
        lin(8, 8, 2),
        lin(8, 8, 3),
        lin(8, 8, 4),
        2,
        2,
        4,
        5,
        f(10000.0),
        RopeType::Norm,
    )
    .is_err());
    assert!(Attention::new(
        lin(8, 8, 1),
        lin(8, 8, 2),
        lin(8, 8, 3),
        lin(8, 8, 4),
        2,
        2,
        4,
        6,
        f(10000.0),
        RopeType::Norm,
    )
    .is_err());
}

#[test]
fn generate_rejects_empty_prompt() {
    let model = tiny_model();
    let p = Tempered(1.0);
    assert!(model.generate(&Std, &[], 4, &p, None, &mut Rng::new(1)).is_err());
}

#[test]
fn cache_clear_resets_state() {
    let model = tiny_model();
    let mut cache = LlamaCache::new(model.blocks.len());
    model.forward_one(&Std, 1, &mut cache).unwrap();
    model.forward_one(&Std, 2, &mut cache).unwrap();
    assert_eq!(cache.pos(), 2);
    cache.clear();
    assert_eq!(cache.pos(), 0);
    let a = model.forward_one(&Std, 3, &mut cache).unwrap();
    let mut fresh = LlamaCache::new(model.blocks.len());
    let b = model.forward_one(&Std, 3, &mut fresh).unwrap();
    for (x, y) in gv(&a).iter().zip(&gv(&b)) {
        assert!((x - y).abs() < 1e-6);
    }
}

#[test]
fn a_row_that_is_too_long_is_refused() {
    let b = block(16, 4, 2, 4, 32, 51);
    let mut cache = KvLayer::default();
    let e = b.forward_one(&Std, &fv(vec![0.5; 17]), 0, &mut cache);
    assert_eq!(e, Err(InferError::ShapeMismatch { expected: 16, got: 17 }));
    assert!(cache.k.is_empty() && cache.v.is_empty());
}

/// Takes a token that no model knows when the state has come to three.
struct Straying;

impl Sampler for Straying {
    fn sample(&self, _scores: &Vec<F32>, _recent: &Vec<usize>, state: u64) -> (usize, u64) {
        (if state == 3 { usize::MAX } else { 1 }, state + 1)
    }
}

#[test]
fn generation_may_be_asked_for_without_bound() {
    let model = tiny_model();
    let mut rng = Rng::from_state(1);
    let out = model.generate(&Std, &[1, 2, 3], usize::MAX, &Straying, Some(1), &mut rng).unwrap();
    assert_eq!(out, vec![1]);
    assert_eq!(rng.state(), 2);
    assert!(matches!(
        model.generate(&Std, &[1], usize::MAX, &Straying, None, &mut rng),
        Err(InferError::DimMismatch(_))
    ));
    assert_eq!(rng.state(), 4);
}
