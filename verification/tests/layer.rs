use ferrum_core::activation::Activation;
use ferrum_core::layer::{
    ActivationLayer, Embedding, Flatten, Forward, KvCache, Layer, LayerNorm, Linear,
    TransformerBlock,
};
use ferrum_core::quant::QKind;
use ferrum_core::rng::Rng;
use ferrum_core::{InferError, Math, Tensor, F32};

struct Std;

impl Math for Std {
    fn exp(&self, x: F32) -> F32 {
        f(g(x).exp())
    }
    fn ln(&self, x: F32) -> F32 {
        f(g(x).ln())
    }
    fn tanh(&self, x: F32) -> F32 {
        f(g(x).tanh())
    }
    fn sin(&self, x: F32) -> F32 {
        f(g(x).sin())
    }
    fn cos(&self, x: F32) -> F32 {
        f(g(x).cos())
    }
    fn powi(&self, x: F32, n: i32) -> F32 {
        f(g(x).powi(n))
    }
    fn inv_freq(&self, base: F32, i: usize, dim: usize) -> F32 {
        f((g(base) as f64).powf(-2.0 * i as f64 / dim as f64) as f32)
    }
    fn norm(&self, v: &Vec<F32>) -> F32 {
        let sum: f64 = v.iter().map(|x| (g(*x) as f64) * (g(*x) as f64)).sum();
        f(sum.sqrt() as f32)
    }
}

fn f(x: f32) -> F32 {
    F32::from_bits(x.to_bits())
}

fn g(x: F32) -> f32 {
    f32::from_bits(x.to_bits())
}

#[allow(dead_code)]
fn fv(v: Vec<f32>) -> Vec<F32> {
    v.into_iter().map(f).collect()
}

#[allow(dead_code)]
fn gv(v: &[F32]) -> Vec<f32> {
    v.iter().map(|x| g(*x)).collect()
}

#[allow(dead_code)]
fn mat(r: usize, c: usize, v: Vec<f32>) -> Tensor {
    Tensor::matrix(r, c, fv(v)).unwrap()
}

#[allow(dead_code)]
fn vect(v: Vec<f32>) -> Tensor {
    Tensor::vector(fv(v))
}

fn identity_linear(n: usize) -> Linear {
    let mut w = vec![0.0f32; n * n];
    for i in 0..n {
        w[i * n + i] = 1.0;
    }
    Linear::new(n, n, fv(w), fv(vec![0.0; n])).unwrap()
}

fn minimal_block(ctx: usize, heads: usize, dim: usize, hidden: usize) -> TransformerBlock {
    let scale = 0.01f32;
    let c = dim;
    let h = hidden;
    TransformerBlock::new(
        ctx, heads, dim,
        fv(vec![1.0; c]), fv(vec![0.0; c]),
        fv(vec![scale; c*c]), fv(vec![0.0; c]),
        fv(vec![scale; c*c]), fv(vec![0.0; c]),
        fv(vec![scale; c*c]), fv(vec![0.0; c]),
        fv(vec![scale; c*c]), fv(vec![0.0; c]),
        fv(vec![1.0; c]), fv(vec![0.0; c]),
        fv(vec![scale; c*h]), fv(vec![0.0; h]),
        fv(vec![scale; h*c]), fv(vec![0.0; c]),
    ).unwrap()
}


#[test]
fn linear_identity_transform() {
    let l = identity_linear(3);
    let x = Tensor::row(fv(vec![1.0, 2.0, 3.0])).unwrap();
    assert_eq!(l.forward(&Std, &x).unwrap().data, fv(vec![1.0, 2.0, 3.0]));
}

#[test]
fn linear_applies_bias() {
    let l = Linear::new(2, 2, fv(vec![1.0, 0.0, 0.0, 1.0]), fv(vec![10.0, 20.0])).unwrap();
    let x = Tensor::row(fv(vec![0.0, 0.0])).unwrap();
    assert_eq!(l.forward(&Std, &x).unwrap().data, fv(vec![10.0, 20.0]));
}

#[test]
fn linear_new_wrong_bias_len_errors() {
    let result = Linear::new(2, 3, fv(vec![0.0; 6]), fv(vec![0.0; 2]));
    assert!(matches!(result, Err(InferError::DimMismatch(_))));
}

#[test]
fn linear_forward_wrong_input_width_errors() {
    let l = identity_linear(3);
    let x = Tensor::row(fv(vec![1.0, 2.0])).unwrap();
    assert!(matches!(l.forward(&Std, &x), Err(InferError::DimMismatch(_))));
}

#[test]
fn linear_accessors() {
    let l = Linear::new(4, 8, fv(vec![0.0; 32]), fv(vec![0.0; 8])).unwrap();
    assert_eq!(l.in_features(), 4);
    assert_eq!(l.out_features(), 8);
}

#[test]
fn linear_name_contains_dims() {
    let l = Linear::new(4, 8, fv(vec![0.0; 32]), fv(vec![0.0; 8])).unwrap();
    let name = l.name();
    assert!(name.contains("4") && name.contains("8"));
}

#[test]
fn linear_batch_forward_shape() {
    let l = Linear::new(3, 2, fv(vec![1.0; 6]), fv(vec![0.0; 2])).unwrap();
    let x = Tensor::matrix(5, 3, fv(vec![1.0; 15])).unwrap();
    let y = l.forward(&Std, &x).unwrap();
    assert_eq!(y.shape, vec![5, 2]);
}


#[test]
fn activation_layer_relu_name() {
    let a = ActivationLayer::new(Activation::ReLU);
    assert!(a.name().contains("ReLU"));
}

#[test]
fn activation_layer_forward_delegates() {
    let a = ActivationLayer::new(Activation::ReLU);
    let x = Tensor::vector(fv(vec![-1.0, 2.0]));
    let y = a.forward(&Std, &x).unwrap();
    assert_eq!(y.data, fv(vec![0.0, 2.0]));
}


#[test]
fn layernorm_preserves_mean_and_var() {
    let x = Tensor::matrix(2, 4, fv(vec![
        1.0, 2.0, 3.0, 4.0,
        10.0, -10.0, 20.0, -20.0,
    ])).unwrap();
    let ln = LayerNorm::new(4, fv(vec![1.0; 4]), fv(vec![0.0; 4])).unwrap();
    let y = ln.forward(&Std, &x).unwrap();
    assert_eq!(y.shape, vec![2, 4]);
    for r in 0..2 {
        let row = gv(&y.data[r * 4..(r + 1) * 4]);
        let mean = row.iter().sum::<f32>() / 4.0;
        let var = row.iter().map(|&v| (v - mean).powi(2)).sum::<f32>() / 4.0;
        assert!(mean.abs() < 1e-4, "row {r} mean={mean}");
        assert!((var - 1.0).abs() < 1e-3, "row {r} var={var}");
    }
}

#[test]
fn layernorm_gamma_beta_applied() {
    let x = Tensor::matrix(1, 4, fv(vec![5.0; 4])).unwrap();
    let ln = LayerNorm::new(4, fv(vec![2.0; 4]), fv(vec![1.0; 4])).unwrap();
    let y = ln.forward(&Std, &x).unwrap();
    for v in gv(&y.data) {
        assert!((v - 1.0).abs() < 1e-3, "got {v}");
    }
}

#[test]
fn layernorm_new_wrong_gamma_len_errors() {
    assert!(LayerNorm::new(4, fv(vec![1.0; 3]), fv(vec![0.0; 4])).is_err());
}

#[test]
fn layernorm_new_wrong_beta_len_errors() {
    assert!(LayerNorm::new(4, fv(vec![1.0; 4]), fv(vec![0.0; 3])).is_err());
}

#[test]
fn layernorm_forward_wrong_width_errors() {
    let ln = LayerNorm::new(4, fv(vec![1.0; 4]), fv(vec![0.0; 4])).unwrap();
    let x = Tensor::matrix(1, 3, fv(vec![1.0; 3])).unwrap();
    assert!(matches!(ln.forward(&Std, &x), Err(InferError::DimMismatch(_))));
}

#[test]
fn layernorm_dim_accessor() {
    let ln = LayerNorm::new(8, fv(vec![1.0; 8]), fv(vec![0.0; 8])).unwrap();
    assert_eq!(ln.dim(), 8);
}

#[test]
fn layernorm_name() {
    let ln = LayerNorm::new(6, fv(vec![1.0; 6]), fv(vec![0.0; 6])).unwrap();
    assert!(ln.name().contains("6"));
}


#[test]
fn embedding_lookup_and_positional_addition() {
    let emb = Embedding::new(
        3, 4, 2,
        fv(vec![1.0, 10.0, 2.0, 20.0, 3.0, 30.0]),
        fv(vec![0.1, 0.2, 0.3, 0.4, 0.5, 0.6, 0.7, 0.8]),
    ).unwrap();
    let x = Tensor::matrix(2, 3, fv(vec![0.0, 2.0, 1.0, 1.0, 0.0, 2.0])).unwrap();
    let y = emb.forward(&Std, &x).unwrap();
    assert_eq!(y.shape, vec![6, 2]);
    assert!((g(y.data[0]) - 1.1).abs() < 1e-5);
    assert!((g(y.data[1]) - 10.2).abs() < 1e-5);
}

#[test]
fn embedding_rank1_input_accepted() {
    let emb = Embedding::new(4, 8, 2,
        fv(vec![0.0; 8]), fv(vec![0.0; 16])).unwrap();
    let x = Tensor::vector(fv(vec![0.0, 1.0, 2.0]));
    assert!(emb.forward(&Std, &x).is_ok());
}

#[test]
fn embedding_new_wrong_token_weight_len_errors() {
    assert!(Embedding::new(3, 4, 2, fv(vec![0.0; 5]), fv(vec![0.0; 8])).is_err());
}

#[test]
fn embedding_new_wrong_pos_weight_len_errors() {
    assert!(Embedding::new(3, 4, 2, fv(vec![0.0; 6]), fv(vec![0.0; 7])).is_err());
}

#[test]
fn embedding_seq_exceeds_max_seq_len_errors() {
    let emb = Embedding::new(5, 4, 2, fv(vec![0.0; 10]), fv(vec![0.0; 8])).unwrap();
    let x = Tensor::matrix(1, 6, fv(vec![0.0; 6])).unwrap();
    assert!(matches!(emb.forward(&Std, &x), Err(InferError::DimMismatch(_))));
}

#[test]
fn embedding_oob_token_index_errors() {
    let emb = Embedding::new(3, 4, 2, fv(vec![0.0; 6]), fv(vec![0.0; 8])).unwrap();
    let x = Tensor::matrix(1, 2, fv(vec![0.0, 9.0])).unwrap();
    assert!(matches!(emb.forward(&Std, &x), Err(InferError::DimMismatch(_))));
}

#[test]
fn embedding_rank3_input_errors() {
    let emb = Embedding::new(5, 4, 2, fv(vec![0.0; 10]), fv(vec![0.0; 8])).unwrap();
    let x = Tensor::new(vec![1, 2, 2], fv(vec![0.0; 4])).unwrap();
    assert!(emb.forward(&Std, &x).is_err());
}

#[test]
fn embedding_accessors() {
    let emb = Embedding::new(10, 32, 64, fv(vec![0.0; 640]), fv(vec![0.0; 2048])).unwrap();
    assert_eq!(emb.vocab_size(), 10);
    assert_eq!(emb.max_seq_len(), 32);
    assert_eq!(emb.embedding_dim(), 64);
}

#[test]
fn embedding_name() {
    let emb = Embedding::new(5, 8, 16, fv(vec![0.0; 80]), fv(vec![0.0; 128])).unwrap();
    let name = emb.name();
    assert!(name.contains("vocab=5") && name.contains("dim=16"));
}


#[test]
fn transformer_block_forward_output_shape() {
    let block = minimal_block(4, 2, 8, 16);
    let x = Tensor::matrix(4, 8, fv(vec![0.1f32; 32])).unwrap();
    let y = block.forward(&Std, &x).unwrap();
    assert_eq!(y.shape, vec![4, 8]);
}

#[test]
fn transformer_block_forward_batch_shape() {
    let block = minimal_block(4, 2, 8, 16);
    let x = Tensor::matrix(8, 8, fv(vec![0.05f32; 64])).unwrap();
    let y = block.forward(&Std, &x).unwrap();
    assert_eq!(y.shape, vec![8, 8]);
}

#[test]
fn transformer_block_output_is_finite() {
    let block = minimal_block(4, 2, 8, 16);
    let x = Tensor::matrix(4, 8, fv((0..32).map(|i| i as f32 * 0.01).collect())).unwrap();
    let y = block.forward(&Std, &x).unwrap();
    assert!(gv(&y.data).iter().all(|v| v.is_finite()), "NaN/Inf in output");
}

#[test]
fn transformer_block_wrong_embedding_dim_errors() {
    let block = minimal_block(4, 2, 8, 16);
    let x = Tensor::matrix(4, 5, fv(vec![0.0; 20])).unwrap();
    assert!(matches!(block.forward(&Std, &x), Err(InferError::DimMismatch(_))));
}

#[test]
fn transformer_block_rows_not_divisible_by_context_len_errors() {
    let block = minimal_block(4, 2, 8, 16);
    let x = Tensor::matrix(6, 8, fv(vec![0.0; 48])).unwrap();
    assert!(matches!(block.forward(&Std, &x), Err(InferError::DimMismatch(_))));
}

#[test]
fn transformer_block_attention_stored_after_forward() {
    let block = minimal_block(4, 2, 8, 16);
    let x = Tensor::matrix(4, 8, fv(vec![0.1f32; 32])).unwrap();
    let (_, weights) = block.forward_with_attention(&Std, &x).unwrap();
    let attn = gv(&weights);
    assert_eq!(attn.len(), 1 * 2 * 4 * 4);
}

#[test]
fn transformer_block_causal_mask_enforced() {
    let block = minimal_block(4, 1, 8, 16);
    let x = Tensor::matrix(4, 8, fv((0..32).map(|i| (i as f32) * 0.1).collect())).unwrap();
    let (_, weights) = block.forward_with_attention(&Std, &x).unwrap();
    let attn = gv(&weights);
    let t = 4;
    for qi in 0..t {
        for ki in 0..t {
            if ki > qi {
                assert!(
                    attn[qi * t + ki] < 1e-6,
                    "attn[{qi},{ki}]={} should be ~0 (causal mask)",
                    attn[qi * t + ki]
                );
            }
        }
    }
}

#[test]
fn transformer_block_attention_rows_sum_to_one() {
    let block = minimal_block(4, 2, 8, 16);
    let x = Tensor::matrix(4, 8, fv(vec![0.3f32; 32])).unwrap();
    let (_, weights) = block.forward_with_attention(&Std, &x).unwrap();
    let attn = gv(&weights);
    let t = 4;
    let heads = 2;
    for h in 0..heads {
        for qi in 0..t {
            let base = (h * t + qi) * t;
            let row_sum: f32 = attn[base..base + t].iter().sum();
            assert!((row_sum - 1.0).abs() < 1e-5,
                "head {h} row {qi}: attn sum = {row_sum}");
        }
    }
}

#[test]
fn transformer_block_accessors() {
    let block = minimal_block(8, 4, 16, 64);
    assert_eq!(block.context_len(), 8);
    assert_eq!(block.num_heads(), 4);
    assert_eq!(block.embedding_dim(), 16);
    assert_eq!(block.hidden_dim(), 64);
}

#[test]
fn transformer_block_name_contains_config() {
    let block = minimal_block(4, 2, 8, 32);
    let name = block.name();
    assert!(name.contains("heads=2") && name.contains("dim=8"));
}

#[test]
fn kv_cache_matches_full_forward() {
    let (t, heads, dim, hidden) = (6, 2, 8, 16);
    let mut rng = Rng::new(11);
    let mut randn = |n: usize| -> Vec<F32> {
        (0..n).map(|_| f(g(rng.next_normal(&Std)) * 0.2)).collect()
    };
    let block = TransformerBlock::new(
        t, heads, dim,
        fv(vec![1.0; dim]), fv(vec![0.0; dim]),
        randn(dim * dim), randn(dim),
        randn(dim * dim), randn(dim),
        randn(dim * dim), randn(dim),
        randn(dim * dim), randn(dim),
        fv(vec![1.0; dim]), fv(vec![0.0; dim]),
        randn(dim * hidden), randn(hidden),
        randn(hidden * dim), randn(dim),
    ).unwrap();

    let x_data = randn(t * dim);
    let x = Tensor::matrix(t, dim, x_data.clone()).unwrap();
    let full = block.forward(&Std, &x).unwrap();

    let mut cache = KvCache::new(t, dim);
    for r in 0..t {
        let row = Tensor::matrix(1, dim, x_data[r * dim..(r + 1) * dim].to_vec()).unwrap();
        let inc = block.forward_with_cache(&Std, &row, &mut cache).unwrap();
        for d in 0..dim {
            let a = g(full.data[r * dim + d]);
            let b = g(inc.data[d]);
            assert!((a - b).abs() < 1e-4, "row {r} dim {d}: full={a} cached={b}");
        }
    }
    assert!(cache.is_full());
}

#[test]
fn kv_cache_overflow_errors() {
    let block = minimal_block(2, 1, 4, 8);
    let mut cache = KvCache::new(2, 4);
    let row = Tensor::matrix(1, 4, fv(vec![0.1; 4])).unwrap();
    block.forward_with_cache(&Std, &row, &mut cache).unwrap();
    block.forward_with_cache(&Std, &row, &mut cache).unwrap();
    assert!(block.forward_with_cache(&Std, &row, &mut cache).is_err());
    cache.clear();
    assert!(block.forward_with_cache(&Std, &row, &mut cache).is_ok());
}

#[test]
fn embed_one_matches_batch_forward() {
    let emb = Embedding::new(
        3, 4, 2,
        fv(vec![1.0, 10.0, 2.0, 20.0, 3.0, 30.0]),
        fv(vec![0.1, 0.2, 0.3, 0.4, 0.5, 0.6, 0.7, 0.8]),
    ).unwrap();
    let x = Tensor::matrix(1, 3, fv(vec![0.0, 2.0, 1.0])).unwrap();
    let batch = emb.forward(&Std, &x).unwrap();
    for pos in 0..3 {
        let tok = g(x.data[pos]) as usize;
        let one = emb.embed_one(tok, pos).unwrap();
        for d in 0..2 {
            assert!((g(one.data[d]) - g(batch.data[pos * 2 + d])).abs() < 1e-6);
        }
    }
    assert!(emb.embed_one(9, 0).is_err());
    assert!(emb.embed_one(0, 9).is_err());
}

#[test]
fn transformer_block_invalid_heads_rejected() {
    let c = 8usize;
    let mk = |ctx: usize, heads: usize| TransformerBlock::new(
        ctx, heads, c,
        fv(vec![1.0; c]), fv(vec![0.0; c]),
        fv(vec![0.0; c*c]), fv(vec![0.0; c]),
        fv(vec![0.0; c*c]), fv(vec![0.0; c]),
        fv(vec![0.0; c*c]), fv(vec![0.0; c]),
        fv(vec![0.0; c*c]), fv(vec![0.0; c]),
        fv(vec![1.0; c]), fv(vec![0.0; c]),
        fv(vec![0.0; c*c]), fv(vec![0.0; c]),
        fv(vec![0.0; c*c]), fv(vec![0.0; c]),
    );
    assert!(mk(4, 3).is_err());
    assert!(mk(4, 0).is_err());
    assert!(mk(0, 2).is_err());
    assert!(mk(4, 2).is_ok());
}

#[test]
fn transformer_block_residual_adds_input() {
    let block = minimal_block(2, 1, 4, 8);
    let input_data: Vec<f32> = (0..8).map(|i| i as f32).collect();
    let x = Tensor::matrix(2, 4, fv(input_data.clone())).unwrap();
    let y = block.forward(&Std, &x).unwrap();
    assert!(gv(&y.data).iter().any(|&v| v.abs() > 0.01));
}

#[test]
fn flatten_makes_one_row() {
    let x = Tensor::new(vec![2, 3, 2], fv((0..12).map(|i| i as f32).collect())).unwrap();
    let y = Flatten::new().forward(&Std, &x).unwrap();
    assert_eq!(y.shape, vec![1, 12]);
    assert_eq!(y.data, x.data);
}

#[test]
fn a_quantized_layer_is_close_to_its_source() {
    let l = Linear::new(8, 16, fv((0..128).map(|i| (i as f32 * 0.1).sin()).collect()), fv(vec![0.5; 16])).unwrap();
    let q = l.quantize(QKind::Int8);
    assert!(q.qweight().is_some() && l.qweight().is_none());
    let x = Tensor::matrix(1, 8, fv((0..8).map(|i| i as f32 * 0.25).collect())).unwrap();
    let (a, b) = (l.forward(&Std, &x).unwrap(), q.forward(&Std, &x).unwrap());
    for (p, r) in gv(&a.data).iter().zip(&gv(&b.data)) {
        assert!((p - r).abs() < 0.1);
    }
    assert_eq!(q.weight_f32().len(), 128);
}

#[test]
fn later_rows_do_not_change_earlier_ones() {
    let block = minimal_block(4, 2, 8, 16);
    let a: Vec<f32> = (0..32).map(|i| (i as f32 * 0.7).sin()).collect();
    let mut b = a.clone();
    for v in b.iter_mut().skip(16) {
        *v += 3.0;
    }
    let x = block.forward(&Std, &Tensor::matrix(4, 8, fv(a)).unwrap()).unwrap();
    let y = block.forward(&Std, &Tensor::matrix(4, 8, fv(b)).unwrap()).unwrap();
    assert_eq!(gv(&x.data)[..16], gv(&y.data)[..16]);
    assert_ne!(gv(&x.data)[16..], gv(&y.data)[16..]);
}
