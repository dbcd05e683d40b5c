use ferrum_core::gguf::{f16_to_f32, Gguf, MetaValue};
use ferrum_core::gguf_blocks::{
    get_scale_min_k4, GGML_F16, GGML_F32, GGML_Q4_0, GGML_Q4_1, GGML_Q4_K, GGML_Q5_K, GGML_Q6_K,
    GGML_Q8_0, GGML_Q8_1, QK_K,
};
use ferrum_core::gguf_encode::put_scale_min_k4;
use ferrum_core::gguf_write::{
    encode_tensor, f32_to_f16, llama_gguf_bytes, plan_tensor_type, GgufBuilder, GgufQuant,
};
use ferrum_core::{Math, Tensor, F32};

struct Std;

impl Math for Std {
    fn exp(&self, x: F32) -> F32 {
        f(g(x).exp())
    }
    fn ln(&self, x: F32) -> F32 {
        f(g(x).ln())
    }
    fn tanh(&self, x: F32) -> F32 {
        f(g(x).tanh())
    }
    fn sin(&self, x: F32) -> F32 {
        f(g(x).sin())
    }
    fn cos(&self, x: F32) -> F32 {
        f(g(x).cos())
    }
    fn powi(&self, x: F32, n: i32) -> F32 {
        f(g(x).powi(n))
    }
    fn inv_freq(&self, base: F32, i: usize, dim: usize) -> F32 {
        f((g(base) as f64).powf(-2.0 * i as f64 / dim as f64) as f32)
    }
    fn norm(&self, v: &Vec<F32>) -> F32 {
        let sum: f64 = v.iter().map(|x| (g(*x) as f64) * (g(*x) as f64)).sum();
        f(sum.sqrt() as f32)
    }
}

fn f(x: f32) -> F32 {
    F32::from_bits(x.to_bits())
}

fn g(x: F32) -> f32 {
    f32::from_bits(x.to_bits())
}

#[allow(dead_code)]
fn fv(v: Vec<f32>) -> Vec<F32> {
    v.into_iter().map(f).collect()
}

#[allow(dead_code)]
fn gv(v: &[F32]) -> Vec<f32> {
    v.iter().map(|x| g(*x)).collect()
}

#[allow(dead_code)]
fn mat(r: usize, c: usize, v: Vec<f32>) -> Tensor {
    Tensor::matrix(r, c, fv(v)).unwrap()
}

#[allow(dead_code)]
fn vect(v: Vec<f32>) -> Tensor {
    Tensor::vector(fv(v))
}

#[test]
fn f32_to_f16_is_exact_inverse_of_f16_to_f32() {
    for h in 0u32..=0xFFFF {
        let h = h as u16;
        let exp = (h >> 10) & 0x1F;
        let mant = h & 0x3FF;
        if exp == 0x1F && mant != 0 {
            continue;
        }
        let x = f16_to_f32(h);
        assert_eq!(f32_to_f16(x), h, "roundtrip failed for f16 bits {h:#06x}");
    }
}

#[test]
fn f32_to_f16_spot_values() {
    assert_eq!(f32_to_f16(f(0.0)), 0x0000);
    assert_eq!(f32_to_f16(f(-0.0)), 0x8000);
    assert_eq!(f32_to_f16(f(1.0)), 0x3C00);
    assert_eq!(f32_to_f16(f(-2.0)), 0xC000);
    assert_eq!(f32_to_f16(f(65504.0)), 0x7BFF);
    assert_eq!(f32_to_f16(f(1e5)), 0x7C00);
    assert_eq!(f32_to_f16(f(f32::INFINITY)), 0x7C00);
}

#[test]
fn gguf_quant_parses_and_maps_types() {
    assert_eq!(GgufQuant::from_str("f32").unwrap().ggml_type(), GGML_F32);
    assert_eq!(GgufQuant::from_str("f16").unwrap().ggml_type(), GGML_F16);
    assert_eq!(GgufQuant::from_str("q8_0").unwrap().ggml_type(), GGML_Q8_0);
    assert_eq!(GgufQuant::from_str("q4_0").unwrap().ggml_type(), GGML_Q4_0);
    assert_eq!(GgufQuant::from_str("q4_k").unwrap().ggml_type(), GGML_Q4_K);
    assert_eq!(GgufQuant::from_str("q6_k").unwrap().ggml_type(), GGML_Q6_K);
    assert!(GgufQuant::from_str("q4_k").unwrap().is_kquant());
    assert!(!GgufQuant::from_str("q8_0").unwrap().is_kquant());
    assert!(GgufQuant::from_str("bogus").is_none());
}

#[test]
fn builder_roundtrips_through_reader() {

    let t0: Vec<f32> = (0..8).map(|i| i as f32).collect();
    let t1: Vec<f32> = (0..4).map(|i| -(i as f32)).collect();

    let mut b = GgufBuilder::new();
    b.meta("general.architecture", MetaValue::String("llama".into()));
    b.meta("llama.block_count", MetaValue::U32(2));
    b.meta(
        "tokenizer.ggml.tokens",
        MetaValue::Array(vec![
            MetaValue::String("a".into()),
            MetaValue::String("b".into()),
        ]),
    );
    b.tensor("t0", &[8], GGML_F32, f32s_to_le_bytes(&t0));
    b.tensor("t1", &[4], GGML_F32, f32s_to_le_bytes(&t1));
    let bytes = b.into_bytes();

    let file = Gguf::parse(bytes).unwrap();
    assert_eq!(file.version, 3);
    assert_eq!(file.architecture(), Some("llama"));
    assert_eq!(file.meta("llama.block_count").unwrap().as_usize(), Some(2));
    assert_eq!(gv(&file.dequantize(file.tensor("t0").unwrap()).unwrap()), t0);
    assert_eq!(gv(&file.dequantize(file.tensor("t1").unwrap()).unwrap()), t1);
    match file.meta("tokenizer.ggml.tokens").unwrap() {
        MetaValue::Array(a) => {
            assert_eq!(a.len(), 2);
            assert_eq!(a[0].as_str(), Some("a"));
        }
        _ => panic!("tokens not an array"),
    }
}

fn f32s_to_le_bytes(xs: &[f32]) -> Vec<u8> {
    let mut o = Vec::with_capacity(xs.len() * 4);
    for &x in xs {
        o.extend_from_slice(&x.to_le_bytes());
    }
    o
}

fn dequant_via_reader(data: &[f32], ggml_type: u32, dims: &[u64]) -> Vec<f32> {
    let mut b = GgufBuilder::new();
    b.meta("general.architecture", MetaValue::String("llama".into()));
    b.tensor(
        "t",
        dims,
        ggml_type,
        encode_tensor(&fv(data.to_vec()), ggml_type).unwrap(),
    );
    let file = Gguf::parse(b.into_bytes()).unwrap();
    gv(&file.dequantize(file.tensor("t").unwrap()).unwrap())
}

fn max_abs_err(a: &[f32], b: &[f32]) -> f32 {
    a.iter()
        .zip(b)
        .map(|(x, y)| (x - y).abs())
        .fold(0.0, f32::max)
}

#[test]
fn enc_f32_is_exact() {
    let x: Vec<f32> = (0..64).map(|i| (i as f32 - 32.0) * 0.1).collect();
    let back = dequant_via_reader(&x, GGML_F32, &[64]);
    assert_eq!(back, x);
}

#[test]
fn enc_f16_within_half_ulp() {
    let x: Vec<f32> = (0..64).map(|i| (i as f32 - 32.0) * 0.01).collect();
    let back = dequant_via_reader(&x, GGML_F16, &[64]);
    assert!(max_abs_err(&x, &back) < 0.001);
}

#[test]
fn enc_q8_0_within_block_bound() {
    let x: Vec<f32> = (0..64).map(|i| ((i * 7) % 13) as f32 - 6.0).collect();
    let back = dequant_via_reader(&x, GGML_Q8_0, &[64]);
    let amax = x.iter().fold(0.0f32, |m, v| m.max(v.abs()));
    assert!(max_abs_err(&x, &back) <= amax / 127.0 + 1e-4);
}

#[test]
fn enc_q8_1_within_block_bound() {
    let x: Vec<f32> = (0..64).map(|i| ((i * 5) % 11) as f32 - 5.0).collect();
    let back = dequant_via_reader(&x, GGML_Q8_1, &[64]);
    let amax = x.iter().fold(0.0f32, |m, v| m.max(v.abs()));
    assert!(max_abs_err(&x, &back) <= amax / 127.0 + 1e-4);
}

#[test]
fn encode_tensor_rejects_ragged_quantized() {
    let x = vec![0.0f32; 20];
    assert!(encode_tensor(&fv(x), GGML_Q8_0).is_err());
}

#[test]
fn enc_q4_0_within_block_bound() {
    let x: Vec<f32> = (0..64).map(|i| ((i * 3) % 17) as f32 - 8.0).collect();
    let back = dequant_via_reader(&x, GGML_Q4_0, &[64]);
    let amax = x.iter().fold(0.0f32, |m, v| m.max(v.abs()));
    assert!(max_abs_err(&x, &back) <= amax / 7.0 + 1e-4);
}

#[test]
fn enc_q4_1_within_block_bound() {
    let x: Vec<f32> = (0..64).map(|i| (i as f32) * 0.25 - 3.0).collect();
    let back = dequant_via_reader(&x, GGML_Q4_1, &[64]);
    let (mut lo, mut hi) = (f32::INFINITY, f32::NEG_INFINITY);
    for &v in &x {
        lo = lo.min(v);
        hi = hi.max(v);
    }
    assert!(max_abs_err(&x, &back) <= (hi - lo) / 15.0 + 1e-4);
}

#[test]
fn put_scale_min_k4_inverts_get_scale_min_k4() {
    let sc = [1u8, 2, 3, 62, 33, 40, 63, 17];
    let m = [7u8, 8, 63, 4, 21, 60, 1, 34];
    let packed = put_scale_min_k4(&sc, &m);
    for j in 0..8 {
        let (d, mn) = get_scale_min_k4(j, &packed);
        assert_eq!(d, sc[j], "scale mismatch at sub-block {j}");
        assert_eq!(mn, m[j], "min mismatch at sub-block {j}");
    }
}

#[test]
fn enc_q4_k_constant_block_is_near_exact() {
    for &c in &[0.5f32, -0.75, 0.0] {
        let x = vec![c; QK_K];
        let back = dequant_via_reader(&x, GGML_Q4_K, &[QK_K as u64]);
        let err = max_abs_err(&x, &back);
        assert!(err <= c.abs() * 0.02 + 1e-3, "c={c} err={err}");
    }
}

#[test]
fn enc_q4_k_within_bound() {
    let x: Vec<f32> = (0..QK_K)
        .map(|i| ((i as f32 * 12.9898).sin() * 43758.5453).fract() * 2.0 - 1.0)
        .collect();
    let back = dequant_via_reader(&x, GGML_Q4_K, &[QK_K as u64]);
    let amax = x.iter().fold(0.0f32, |m, v| m.max(v.abs()));
    assert!(max_abs_err(&x, &back) <= amax * 0.15, "q4_k error too high");
}

#[test]
fn enc_q5_k_constant_block_is_near_exact() {
    for &c in &[0.5f32, -0.75] {
        let x = vec![c; QK_K];
        let back = dequant_via_reader(&x, GGML_Q5_K, &[QK_K as u64]);
        assert!(max_abs_err(&x, &back) <= c.abs() * 0.02 + 1e-3, "c={c}");
    }
}

#[test]
fn enc_q5_k_within_bound() {
    let x: Vec<f32> = (0..QK_K)
        .map(|i| ((i as f32 * 7.13).sin() * 1234.5).fract() * 2.0 - 1.0)
        .collect();
    let back = dequant_via_reader(&x, GGML_Q5_K, &[QK_K as u64]);
    let amax = x.iter().fold(0.0f32, |m, v| m.max(v.abs()));
    assert!(max_abs_err(&x, &back) <= amax * 0.10, "q5_k error too high");
}

#[test]
fn enc_q6_k_constant_block_is_near_exact() {
    for &c in &[0.5f32, -0.75] {
        let x = vec![c; QK_K];
        let back = dequant_via_reader(&x, GGML_Q6_K, &[QK_K as u64]);
        assert!(max_abs_err(&x, &back) <= c.abs() * 0.02 + 1e-3, "c={c}");
    }
}

#[test]
fn enc_q6_k_within_bound() {
    let x: Vec<f32> = (0..QK_K)
        .map(|i| ((i as f32 * 3.7).cos() * 987.65).fract() * 2.0 - 1.0)
        .collect();
    let back = dequant_via_reader(&x, GGML_Q6_K, &[QK_K as u64]);
    let amax = x.iter().fold(0.0f32, |m, v| m.max(v.abs()));
    assert!(max_abs_err(&x, &back) <= amax * 0.05, "q6_k error too high");
}

#[test]
fn plan_tensor_type_applies_policy() {
    assert_eq!(
        plan_tensor_type(false, 8, GgufQuant::Q4K),
        (GGML_F32, false)
    );
    assert_eq!(
        plan_tensor_type(true, 256, GgufQuant::Q4K),
        (GGML_Q4_K, false)
    );
    assert_eq!(
        plan_tensor_type(true, 100, GgufQuant::Q4K),
        (GGML_F16, true)
    );
    assert_eq!(
        plan_tensor_type(true, 64, GgufQuant::Q8_0),
        (GGML_Q8_0, false)
    );
    assert_eq!(
        plan_tensor_type(true, 20, GgufQuant::Q8_0),
        (GGML_F16, true)
    );
    assert_eq!(
        plan_tensor_type(true, 20, GgufQuant::F16),
        (GGML_F16, false)
    );
}


fn det_fill(seed: usize, n: usize) -> Vec<f32> {
    (0..n)
        .map(|i| (((seed * 131 + i * 17) % 101) as f32 / 500.0) - 0.1)
        .collect()
}

fn tiny_llama_gguf_bytes() -> Vec<u8> {
    tiny_llama_gguf_bytes_ex(false)
}

fn tiny_llama_gguf_bytes_ex(with_qkv_bias: bool) -> Vec<u8> {
    let (dim, n_layers, n_heads, ffn, vocab, ctx) =
        (8usize, 2usize, 2usize, 16usize, 32usize, 16usize);
    let head_dim = dim / n_heads;

    let gen = det_fill;

    let mut b = GgufBuilder::new();
    b.meta("general.architecture", MetaValue::String("llama".into()));
    b.meta("general.name", MetaValue::String("tiny".into()));
    b.meta("llama.embedding_length", MetaValue::U32(dim as u32));
    b.meta("llama.block_count", MetaValue::U32(n_layers as u32));
    b.meta("llama.attention.head_count", MetaValue::U32(n_heads as u32));
    b.meta(
        "llama.attention.head_count_kv",
        MetaValue::U32(n_heads as u32),
    );
    b.meta("llama.feed_forward_length", MetaValue::U32(ffn as u32));
    b.meta("llama.context_length", MetaValue::U32(ctx as u32));
    b.meta(
        "llama.attention.layer_norm_rms_epsilon",
        MetaValue::F32(f(1e-5)),
    );
    let toks: Vec<MetaValue> = (0..vocab)
        .map(|i| MetaValue::String(format!("t{i}")))
        .collect();
    b.meta("tokenizer.ggml.model", MetaValue::String("gpt2".into()));
    b.meta("tokenizer.ggml.tokens", MetaValue::Array(toks));

    let f32t = |b: &mut GgufBuilder, name: &str, dims: &[u64], seed: usize| {
        let n: usize = dims.iter().product::<u64>() as usize;
        b.tensor(name, dims, GGML_F32, f32s_to_le_bytes(&gen(seed, n)));
    };

    f32t(&mut b, "token_embd.weight", &[dim as u64, vocab as u64], 1);
    for i in 0..n_layers {
        let p = format!("blk.{i}");
        f32t(
            &mut b,
            &format!("{p}.attn_norm.weight"),
            &[dim as u64],
            10 + i,
        );
        f32t(
            &mut b,
            &format!("{p}.attn_q.weight"),
            &[dim as u64, (n_heads * head_dim) as u64],
            20 + i,
        );
        if with_qkv_bias {
            f32t(
                &mut b,
                &format!("{p}.attn_q.bias"),
                &[(n_heads * head_dim) as u64],
                300 + i,
            );
        }
        f32t(
            &mut b,
            &format!("{p}.attn_k.weight"),
            &[dim as u64, (n_heads * head_dim) as u64],
            30 + i,
        );
        if with_qkv_bias {
            f32t(
                &mut b,
                &format!("{p}.attn_k.bias"),
                &[(n_heads * head_dim) as u64],
                310 + i,
            );
        }
        f32t(
            &mut b,
            &format!("{p}.attn_v.weight"),
            &[dim as u64, (n_heads * head_dim) as u64],
            40 + i,
        );
        if with_qkv_bias {
            f32t(
                &mut b,
                &format!("{p}.attn_v.bias"),
                &[(n_heads * head_dim) as u64],
                320 + i,
            );
        }
        f32t(
            &mut b,
            &format!("{p}.attn_output.weight"),
            &[(n_heads * head_dim) as u64, dim as u64],
            50 + i,
        );
        if with_qkv_bias {
            f32t(
                &mut b,
                &format!("{p}.attn_output.bias"),
                &[dim as u64],
                330 + i,
            );
        }
        f32t(
            &mut b,
            &format!("{p}.ffn_norm.weight"),
            &[dim as u64],
            60 + i,
        );
        f32t(
            &mut b,
            &format!("{p}.ffn_gate.weight"),
            &[dim as u64, ffn as u64],
            70 + i,
        );
        f32t(
            &mut b,
            &format!("{p}.ffn_up.weight"),
            &[dim as u64, ffn as u64],
            80 + i,
        );
        f32t(
            &mut b,
            &format!("{p}.ffn_down.weight"),
            &[ffn as u64, dim as u64],
            90 + i,
        );
    }
    f32t(&mut b, "output_norm.weight", &[dim as u64], 200);
    f32t(&mut b, "output.weight", &[dim as u64, vocab as u64], 201);
    b.into_bytes()
}

#[test]
fn write_llama_gguf_f32_roundtrip_is_exact() {

    let g0 = Gguf::parse(tiny_llama_gguf_bytes()).unwrap();
    let model = g0.load_llama_prec(None).unwrap();

    let out = llama_gguf_bytes(&model, &g0, GgufQuant::F32).unwrap();
    let g1 = Gguf::parse(out).unwrap();
    let model2 = g1.load_llama_prec(None).unwrap();

    let toks = [1usize, 5, 2, 7];
    let l0 = model.forward_tokens(&Std, &toks).unwrap();
    let l1 = model2.forward_tokens(&Std, &toks).unwrap();
    assert_eq!(l0.data, l1.data);
}

#[test]
fn write_llama_gguf_preserves_tokenizer_metadata() {
    let g0 = Gguf::parse(tiny_llama_gguf_bytes()).unwrap();
    let model = g0.load_llama_prec(None).unwrap();
    let out = llama_gguf_bytes(&model, &g0, GgufQuant::Q8_0).unwrap();
    let g1 = Gguf::parse(out).unwrap();
    assert_eq!(
        g1.meta("tokenizer.ggml.model").unwrap().as_str(),
        Some("gpt2")
    );
    assert_eq!(
        g0.meta("tokenizer.ggml.tokens"),
        g1.meta("tokenizer.ggml.tokens")
    );
}

#[test]
fn write_llama_gguf_roundtrips_qkv_biases() {

    let n_layers = 2usize;
    let qkv_dim = 8usize;

    let g0 = Gguf::parse(tiny_llama_gguf_bytes_ex(true)).unwrap();
    let model = g0.load_llama_prec(None).unwrap();

    let out = llama_gguf_bytes(&model, &g0, GgufQuant::F32).unwrap();
    let g1 = Gguf::parse(out).unwrap();

    for i in 0..n_layers {
        let p = format!("blk.{i}");
        for (stem, seed) in [
            ("attn_q", 300 + i),
            ("attn_k", 310 + i),
            ("attn_v", 320 + i),
        ] {
            let name = format!("{p}.{stem}.bias");
            let expected = det_fill(seed, qkv_dim);
            let t = g1
                .tensor(&name)
                .unwrap_or_else(|| panic!("expected '{name}' to be emitted"));
            let got = gv(&g1.dequantize(t).unwrap());
            assert_eq!(got.len(), expected.len(), "{name}: length mismatch");
            for (a, e) in got.iter().zip(&expected) {
                assert!((a - e).abs() < 1e-6, "{name}: got {a}, want {e}");
            }
        }
    }

    assert!(g1.tensor("blk.0.attn_output.bias").is_none());
    assert!(g1.tensor("blk.0.ffn_gate.bias").is_none());
    assert!(g1.tensor("blk.0.ffn_up.bias").is_none());
    assert!(g1.tensor("blk.0.ffn_down.bias").is_none());
    assert!(g1.tensor("blk.1.attn_output.bias").is_none());
}

#[test]
fn the_alignment_that_is_named_is_kept() {
    let mut b = GgufBuilder::new();
    b.meta("general.alignment", MetaValue::U32(64));
    b.tensor("t", &[1], 0, f32s_to_le_bytes(&[1.0]));
    let o = b.into_bytes();
    assert_eq!(o.len(), 132);
    assert_eq!(o[128..132], f32s_to_le_bytes(&[1.0])[..]);
    let file = Gguf::parse(o).unwrap();
    assert_eq!(gv(&file.dequantize(file.tensor("t").unwrap()).unwrap()), vec![1.0]);
}
