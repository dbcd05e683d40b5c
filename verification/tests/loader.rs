use ferrum_core::activation::Activation;
use ferrum_core::csv::{ModelMetadata, Normalizer, TaskType};
use ferrum_core::decimal::Decimals;
use ferrum_core::finf_layers::{TAG_EMBEDDING, TAG_LINEAR};
use ferrum_core::finf_weights::{
    push_weights, read_vector, QPrec, ENC_F32, ENC_INT8, ENC_INT8_PER_CHANNEL,
};
use ferrum_core::layer::{
    ActivationLayer, Embedding, Flatten, Layer, LayerNorm, Linear, TransformerBlock,
};
use ferrum_core::loader::{
    from_bytes, to_bytes, to_bytes_quantized, to_bytes_quantized_int4, FINF_MAGIC, VERSION,
    VERSION_QUANT,
};
use ferrum_core::model::{AnyLayer, Sequential};
use ferrum_core::quant::{
    fake_quantize_int8_per_channel, int8_scale, int8_scales_per_channel, QKind, QUANT_MIN_LEN,
};
use ferrum_core::{InferError, Math, Tensor, F32};

struct Std;

impl Math for Std {
    fn exp(&self, x: F32) -> F32 {
        f(g(x).exp())
    }
    fn ln(&self, x: F32) -> F32 {
        f(g(x).ln())
    }
    fn tanh(&self, x: F32) -> F32 {
        f(g(x).tanh())
    }
    fn sin(&self, x: F32) -> F32 {
        f(g(x).sin())
    }
    fn cos(&self, x: F32) -> F32 {
        f(g(x).cos())
    }
    fn powi(&self, x: F32, n: i32) -> F32 {
        f(g(x).powi(n))
    }
    fn inv_freq(&self, base: F32, i: usize, dim: usize) -> F32 {
        f((g(base) as f64).powf(-2.0 * i as f64 / dim as f64) as f32)
    }
    fn norm(&self, v: &Vec<F32>) -> F32 {
        let sum: f64 = v.iter().map(|x| (g(*x) as f64) * (g(*x) as f64)).sum();
        f(sum.sqrt() as f32)
    }
}

fn f(x: f32) -> F32 {
    F32::from_bits(x.to_bits())
}

fn g(x: F32) -> f32 {
    f32::from_bits(x.to_bits())
}

#[allow(dead_code)]
fn fv(v: Vec<f32>) -> Vec<F32> {
    v.into_iter().map(f).collect()
}

#[allow(dead_code)]
fn gv(v: &[F32]) -> Vec<f32> {
    v.iter().map(|x| g(*x)).collect()
}

#[allow(dead_code)]
fn mat(r: usize, c: usize, v: Vec<f32>) -> Tensor {
    Tensor::matrix(r, c, fv(v)).unwrap()
}

#[allow(dead_code)]
fn vect(v: Vec<f32>) -> Tensor {
    Tensor::vector(fv(v))
}

struct Dec;

impl Decimals for Dec {
    fn parse(&self, text: &String) -> Option<F32> {
        text.parse::<f32>().ok().map(f)
    }
    fn fixed(&self, x: F32, digits: usize) -> String {
        format!("{:.*}", digits, g(x))
    }
}

fn push_u32(out: &mut Vec<u8>, v: u32) {
    out.extend_from_slice(&v.to_le_bytes());
}

fn push_str(out: &mut Vec<u8>, s: &str) {
    push_u32(out, s.len() as u32);
    out.extend_from_slice(s.as_bytes());
}

fn make_bundle() -> (Sequential, Normalizer, ModelMetadata) {
    let l1 = Linear::new(
        4, 8,
        fv((0..32).map(|i| i as f32 * 0.01).collect()),
        fv(vec![0.0; 8]),
    ).unwrap();
    let l2 = Linear::new(
        8, 3,
        fv((0..24).map(|i| i as f32 * -0.01).collect()),
        fv(vec![0.1; 3]),
    ).unwrap();
    let model = Sequential::new()
        .with(AnyLayer::Linear(l1))
        .with(AnyLayer::Activation(ActivationLayer::new(Activation::ReLU)))
        .with(AnyLayer::Linear(l2))
        .with(AnyLayer::Activation(ActivationLayer::new(Activation::Softmax)));
    let norm = Normalizer {
        means: fv(vec![5.8, 3.1, 3.7, 1.2]),
        stds: fv(vec![0.8, 0.4, 1.7, 0.8]),
    };
    let meta = ModelMetadata {
        dataset_name: "test".into(),
        task: TaskType::Classification,
        feature_names: vec!["a".into(), "b".into(), "c".into(), "d".into()],
        feature_ranges: vec![[f(0.0), f(10.0)]; 4],
        class_names: vec!["X".into(), "Y".into(), "Z".into()],
        target_name: "".into(),
        target_range: [f(0.0), f(2.0)],
        input_dim: 4,
        output_dim: 3,
        tokenizer_state: String::new(),
    };
    (model, norm, meta)
}

fn make_embedding_bundle_big() -> (Sequential, Normalizer, ModelMetadata) {
    let vocab = 10usize;
    let ctx = 4usize;
    let dim = 64usize;
    let heads = 4usize;
    let hidden = 128usize;
    let w = |n: usize, s: f32| -> Vec<F32> {
        (0..n).map(|i| f((i as f32 * s).sin() * 0.2)).collect()
    };
    let emb = Embedding::new(vocab, ctx, dim, w(vocab * dim, 0.01), w(ctx * dim, 0.02)).unwrap();
    let tb = TransformerBlock::new(
        ctx, heads, dim,
        fv(vec![1.0; dim]), fv(vec![0.0; dim]),
        w(dim * dim, 0.013), fv(vec![0.0; dim]),
        w(dim * dim, 0.017), fv(vec![0.0; dim]),
        w(dim * dim, 0.019), fv(vec![0.0; dim]),
        w(dim * dim, 0.023), fv(vec![0.0; dim]),
        fv(vec![1.0; dim]), fv(vec![0.0; dim]),
        w(dim * hidden, 0.007), fv(vec![0.0; hidden]),
        w(hidden * dim, 0.009), fv(vec![0.0; dim]),
    ).unwrap();
    let lnf = LayerNorm::new(dim, fv(vec![1.0; dim]), fv(vec![0.0; dim])).unwrap();
    let head = Linear::new(dim, vocab, w(dim * vocab, 0.005), fv(vec![0.0; vocab])).unwrap();
    let model = Sequential::new()
        .with(AnyLayer::Embedding(emb))
        .with(AnyLayer::Transformer(tb))
        .with(AnyLayer::LayerNorm(lnf))
        .with(AnyLayer::Linear(head))
        .with(AnyLayer::Activation(ActivationLayer::new(Activation::Softmax)));
    let norm = Normalizer { means: vec![], stds: vec![] };
    let meta = ModelMetadata {
        dataset_name: "big".into(),
        task: TaskType::TransformerSLM,
        feature_names: (0..ctx).map(|i| format!("c_{i}")).collect(),
        feature_ranges: vec![[f(0.0), f(vocab as f32)]; ctx],
        class_names: (0..vocab).map(|i| format!("{i:x}")).collect(),
        target_name: "next".into(),
        target_range: [f(0.0), f(vocab as f32)],
        input_dim: ctx,
        output_dim: vocab,
        tokenizer_state: String::new(),
    };
    (model, norm, meta)
}

fn make_embedding_bundle() -> (Sequential, Normalizer, ModelMetadata) {
    let vocab_size = 5;
    let max_seq_len = 4;
    let embedding_dim = 8;
    let emb = Embedding::new(
        vocab_size, max_seq_len, embedding_dim,
        fv((0..vocab_size * embedding_dim).map(|i| i as f32 * 0.1).collect()),
        fv((0..max_seq_len * embedding_dim).map(|i| i as f32 * 0.01).collect()),
    ).unwrap();
    let lm_head = Linear::new(
        embedding_dim, vocab_size,
        fv((0..embedding_dim * vocab_size).map(|i| i as f32 * 0.01).collect()),
        fv(vec![0.0; vocab_size]),
    ).unwrap();
    let model = Sequential::new()
        .with(AnyLayer::Embedding(emb))
        .with(AnyLayer::Activation(ActivationLayer::new(Activation::Softmax)))
        .with(AnyLayer::Linear(lm_head));
    let norm = Normalizer { means: vec![], stds: vec![] };
    let vocab: Vec<String> = "abcde".chars().map(|c| c.to_string()).collect();
    let meta = ModelMetadata {
        dataset_name: "tiny_slm".into(),
        task: TaskType::TransformerSLM,
        feature_names: (0..max_seq_len).map(|i| format!("c_{i}")).collect(),
        feature_ranges: vec![[f(0.0), f(vocab_size as f32)]; max_seq_len],
        class_names: vocab,
        target_name: "next_char".into(),
        target_range: [f(0.0), f(vocab_size as f32)],
        input_dim: max_seq_len,
        output_dim: vocab_size,
        tokenizer_state: String::new(),
    };
    (model, norm, meta)
}

#[test]
fn roundtrip_preserves_outputs() {
    let (model, norm, meta) = make_bundle();
    let raw = Tensor::row(fv(vec![5.1f32, 3.5, 1.4, 0.2])).unwrap();
    let before = model.forward(&Std, &norm.transform(&raw).unwrap()).unwrap();
    let bytes = to_bytes(&Dec, &model, &norm, &meta).unwrap();
    let (m2, n2, _) = from_bytes(&Dec, &bytes).unwrap();
    let after = m2.forward(&Std, &n2.transform(&raw).unwrap()).unwrap();
    for (a, b) in gv(&before.data).iter().zip(&gv(&after.data)) {
        assert!((a - b).abs() < 1e-6);
    }
}

#[test]
fn metadata_survives_roundtrip() {
    let (model, norm, meta) = make_bundle();
    let bytes = to_bytes(&Dec, &model, &norm, &meta).unwrap();
    let (_, _, m2) = from_bytes(&Dec, &bytes).unwrap();
    assert_eq!(m2.task, TaskType::Classification);
    assert_eq!(m2.class_names, vec!["X", "Y", "Z"]);
    assert_eq!(m2.feature_names, vec!["a", "b", "c", "d"]);
}

#[test]
fn embedding_bundle_roundtrips() {
    let (model, norm, meta) = make_embedding_bundle();
    let bytes = to_bytes(&Dec, &model, &norm, &meta).unwrap();
    let (m2, _, m2meta) = from_bytes(&Dec, &bytes).unwrap();
    assert_eq!(m2meta.task, TaskType::TransformerSLM);
    assert_eq!(m2meta.class_names, vec!["a", "b", "c", "d", "e"]);
    let x = Tensor::matrix(1, 4, fv(vec![0.0, 1.0, 2.0, 3.0])).unwrap();
    assert!(m2.forward(&Std, &x).is_ok());
}

#[test]
fn quantized_roundtrip_is_smaller_and_close() {
    let (model, norm, meta) = make_bundle();
    let raw = Tensor::row(fv(vec![5.1f32, 3.5, 1.4, 0.2])).unwrap();
    let before = model.forward(&Std, &norm.transform(&raw).unwrap()).unwrap();

    let full = to_bytes(&Dec, &model, &norm, &meta).unwrap();
    let quant = to_bytes_quantized(&Dec, &model, &norm, &meta).unwrap();
    let big = Linear::new(
        64, 64,
        fv((0..64 * 64).map(|i| (i as f32 * 0.37).sin() * 0.1).collect()),
        fv(vec![0.0; 64]),
    ).unwrap();
    let big_model = Sequential::new().with(AnyLayer::Linear(big));
    let big_norm = Normalizer { means: vec![], stds: vec![] };
    let big_full = to_bytes(&Dec, &big_model, &big_norm, &meta).unwrap();
    let big_quant = to_bytes_quantized(&Dec, &big_model, &big_norm, &meta).unwrap();
    assert!(
        (big_quant.len() as f32) < (big_full.len() as f32) * 0.35,
        "quantized {} not ≈4× smaller than {}", big_quant.len(), big_full.len()
    );

    assert!(quant.len() <= full.len() + model.len() * 8);
    let (m2, n2, _) = from_bytes(&Dec, &quant).unwrap();
    let after = m2.forward(&Std, &n2.transform(&raw).unwrap()).unwrap();
    for (a, b) in gv(&before.data).iter().zip(&gv(&after.data)) {
        assert!((a - b).abs() < 1e-6);
    }

    let x = Tensor::row(fv(vec![0.1f32; 64])).unwrap();
    let y_full = big_model.forward(&Std, &x).unwrap();
    let (m3, _, _) = from_bytes(&Dec, &big_quant).unwrap();
    let y_quant = m3.forward(&Std, &x).unwrap();
    for (a, b) in gv(&y_full.data).iter().zip(&gv(&y_quant.data)) {
        assert!((a - b).abs() < 0.05, "quantized output drifted: {a} vs {b}");
    }
}

#[test]
fn int4_roundtrip_keeps_weights_quantized_in_memory() {
    let (in_f, out_f) = (96usize, 96usize);
    let w: Vec<f32> = (0..in_f * out_f).map(|i| (i as f32 * 0.011).sin() * 0.4).collect();
    let big = Linear::new(in_f, out_f, fv(w), fv(vec![0.0; out_f])).unwrap();
    let model = Sequential::new().with(AnyLayer::Linear(big));
    let norm = Normalizer { means: vec![], stds: vec![] };
    let (_, _, meta) = make_bundle();

    let x = Tensor::matrix(1, in_f, fv((0..in_f).map(|i| (i as f32 * 0.03).cos()).collect())).unwrap();
    let y_f32 = model.forward(&Std, &x).unwrap();

    let bytes = to_bytes_quantized_int4(&Dec, &model, &norm, &meta).unwrap();
    assert_eq!(&bytes[4..8], &VERSION_QUANT.to_le_bytes());
    let f32_bytes = to_bytes(&Dec, &model, &norm, &meta).unwrap();
    assert!(
        (bytes.len() as f32) < (f32_bytes.len() as f32) * 0.4,
        "int4 file {} not far smaller than f32 {}", bytes.len(), f32_bytes.len()
    );

    let (loaded, _, _) = from_bytes(&Dec, &bytes).unwrap();
    let lin = match &loaded.layers()[0] {
        AnyLayer::Linear(l) => l,
        _ => panic!("layer 0 is Linear"),
    };
    let qw = lin.qweight().expect("weights stay quantized in memory");
    assert_eq!(qw.kind, QKind::Int4);
    assert!(lin.weight.data.is_empty(), "f32 copy must be dropped");

    let y_q = loaded.forward(&Std, &x).unwrap();
    let mae: f32 = gv(&y_f32.data).iter().zip(&gv(&y_q.data)).map(|(a, b)| (a - b).abs()).sum::<f32>()
        / out_f as f32;
    assert!(mae < 0.2, "int4 forward drifted too far: mae={mae}");
}

#[test]
fn int4_transformer_block_projections_stay_quantized() {
    let (model, norm, meta) = make_embedding_bundle_big();
    let bytes = to_bytes_quantized_int4(&Dec, &model, &norm, &meta).unwrap();
    let (loaded, _, _) = from_bytes(&Dec, &bytes).unwrap();
    let tb = loaded
        .layers()
        .iter()
        .find_map(|l| match l {
            AnyLayer::Transformer(tb) => Some(tb),
            _ => None,
        })
        .expect("has a transformer block");
    assert!(tb.q_proj.qweight().is_some(), "q_proj should be quantized");
    assert!(tb.ffn1.qweight().is_some(), "ffn1 should be quantized");
    let x = Tensor::matrix(1, meta.input_dim, fv(vec![1.0; meta.input_dim])).unwrap();
    let y = loaded.forward(&Std, &x).unwrap();
    assert!(gv(&y.data).iter().all(|v| v.is_finite()));
}

#[test]
fn per_channel_weight_vector_roundtrips_and_isolates_outlier() {
    let channels = 4;
    let row = 32;
    let mut data: Vec<f32> = (0..channels * row).map(|i| (i as f32 * 0.05).sin() * 0.3).collect();
    data[2 * row + 1] = 25.0;

    let mut out = Vec::new();
    push_weights(&mut out, &fv(data.clone()), channels, true, QPrec::Int8);
    assert_eq!(out[0], ENC_INT8_PER_CHANNEL, "matrix should use the per-channel marker");

    let (values, pos) = read_vector(&out, 0, data.len(), true).unwrap();
    let decoded = gv(&values);
    assert_eq!(pos, out.len(), "reader did not consume the whole vector");

    let scales = gv(&int8_scales_per_channel(&fv(data.clone()), channels));
    for (i, (o, q)) in data.iter().zip(&decoded).enumerate() {
        assert!((o - q).abs() <= scales[i / row] * 0.5 + 1e-6, "value {i}: {o} vs {q}");
    }
    let clean_err: f32 = data[..row].iter().zip(&decoded[..row]).map(|(a, b)| (a - b).abs()).sum();
    assert!(clean_err < 0.05, "clean channel error too large: {clean_err}");
}

#[test]
fn one_dimensional_weight_uses_per_tensor_marker() {
    let data: Vec<f32> = (0..QUANT_MIN_LEN).map(|i| (i as f32 * 0.1).cos() * 0.2).collect();
    let mut out = Vec::new();
    push_weights(&mut out, &fv(data.clone()), 1, true, QPrec::Int8);
    assert_eq!(out[0], ENC_INT8, "1-D vector should use the per-tensor marker");
    let (values, _) = read_vector(&out, 0, data.len(), true).unwrap();
    let decoded = gv(&values);
    let scale = g(int8_scale(&fv(data.clone())));
    for (o, q) in data.iter().zip(&decoded) {
        assert!((o - q).abs() <= scale * 0.5 + 1e-6);
    }
}

#[test]
fn quantized_transformer_roundtrips() {
    let (model, norm, meta) = make_embedding_bundle();
    let bytes = to_bytes_quantized(&Dec, &model, &norm, &meta).unwrap();
    assert_eq!(&bytes[4..8], &5u32.to_le_bytes());
    let (m2, _, m2meta) = from_bytes(&Dec, &bytes).unwrap();
    assert_eq!(m2meta.task, TaskType::TransformerSLM);
    let x = Tensor::matrix(1, 4, fv(vec![0.0, 1.0, 2.0, 3.0])).unwrap();
    assert!(m2.forward(&Std, &x).is_ok());
}

#[test]
fn flatten_roundtrips_as_v5() {
    let lin = Linear::new(
        8, 3,
        fv((0..24).map(|i| i as f32 * 0.01).collect()),
        fv(vec![0.0; 3]),
    ).unwrap();
    let model = Sequential::new()
        .with(AnyLayer::Flatten(Flatten::new()))
        .with(AnyLayer::Linear(lin));
    let norm = Normalizer { means: vec![], stds: vec![] };
    let (_, _, meta) = make_bundle();

    let bytes = to_bytes(&Dec, &model, &norm, &meta).unwrap();
    assert_eq!(&bytes[4..8], &5u32.to_le_bytes());

    let (m2, _, _) = from_bytes(&Dec, &bytes).unwrap();
    assert_eq!(m2.len(), 2);
    assert_eq!(m2.layers()[0].name(), "Flatten");
    let x = Tensor::matrix(2, 4, fv(vec![0.1; 8])).unwrap();
    let before = model.forward(&Std, &x).unwrap();
    let after = m2.forward(&Std, &x).unwrap();
    assert_eq!(before.shape, vec![1, 3]);
    for (a, b) in gv(&before.data).iter().zip(&gv(&after.data)) {
        assert!((a - b).abs() < 1e-6);
    }
}

#[test]
fn bad_weight_marker_errors() {
    let (model, norm, meta) = make_embedding_bundle();
    let mut bytes = to_bytes_quantized(&Dec, &model, &norm, &meta).unwrap();
    let meta_len = meta.to_json(&Dec).len();
    let marker_pos = 8 + 4 + (4 + meta_len) + 4 + 1 + 12;
    assert!(bytes[marker_pos] == ENC_F32 || bytes[marker_pos] == ENC_INT8);
    bytes[marker_pos] = 7;
    assert!(matches!(from_bytes(&Dec, &bytes), Err(InferError::Format(_))));
}

#[test]
fn bad_magic_errors() {
    assert!(matches!(
        from_bytes(&Dec, b"XXXX\x04\x00\x00\x00"),
        Err(InferError::Format(_))
    ));
}

#[test]
fn wrong_version_errors() {
    let (m, n, meta) = make_bundle();
    let mut bytes = to_bytes(&Dec, &m, &n, &meta).unwrap();
    bytes[4] = 99;
    bytes[5] = 0;
    bytes[6] = 0;
    bytes[7] = 0;
    assert!(matches!(from_bytes(&Dec, &bytes), Err(InferError::Format(_))));
}

#[test]
fn truncation_errors() {
    let (m, n, meta) = make_bundle();
    let mut bytes = to_bytes(&Dec, &m, &n, &meta).unwrap();
    bytes.truncate(bytes.len() - 8);
    assert!(from_bytes(&Dec, &bytes).is_err());
}

#[test]
fn huge_dims_error_fast_without_alloc() {
    let (_, _, meta) = make_bundle();
    let mut bytes = Vec::new();
    bytes.extend_from_slice(&FINF_MAGIC.to_le_bytes());
    push_u32(&mut bytes, VERSION);
    push_str(&mut bytes, "");
    push_str(&mut bytes, &meta.to_json(&Dec));
    push_u32(&mut bytes, 1);
    bytes.push(TAG_LINEAR);
    push_u32(&mut bytes, u32::MAX);
    push_u32(&mut bytes, u32::MAX);
    assert!(matches!(from_bytes(&Dec, &bytes), Err(InferError::Format(_))));
}

#[test]
fn oversized_embedding_dims_error() {
    let (_, _, meta) = make_bundle();
    let mut bytes = Vec::new();
    bytes.extend_from_slice(&FINF_MAGIC.to_le_bytes());
    push_u32(&mut bytes, VERSION);
    push_str(&mut bytes, "");
    push_str(&mut bytes, &meta.to_json(&Dec));
    push_u32(&mut bytes, 1);
    bytes.push(TAG_EMBEDDING);
    push_u32(&mut bytes, 1_000_000);
    push_u32(&mut bytes, 1_000_000);
    push_u32(&mut bytes, 1_000_000);
    assert!(matches!(from_bytes(&Dec, &bytes), Err(InferError::Format(_))));
}

#[test]
fn unknown_layer_tag_error() {
    let (_, _, meta) = make_bundle();
    let mut malformed = Vec::new();
    malformed.extend_from_slice(&FINF_MAGIC.to_le_bytes());
    push_u32(&mut malformed, VERSION);
    push_str(&mut malformed, "");
    push_str(&mut malformed, &meta.to_json(&Dec));
    push_u32(&mut malformed, 1);
    malformed.push(99);
    assert!(matches!(from_bytes(&Dec, &malformed), Err(InferError::Format(_))));
}

#[test]
fn layernorm_and_transformerblock_roundtrip() {
    let context_len = 4;
    let num_heads = 2;
    let embedding_dim = 8;
    let hidden_dim = 16;
    let c = embedding_dim;
    let h = hidden_dim;

    let ln = LayerNorm::new(embedding_dim, fv(vec![1.0; c]), fv(vec![0.0; c])).unwrap();
    let tb = TransformerBlock::new(
        context_len, num_heads, embedding_dim,
        fv(vec![1.0; c]), fv(vec![0.0; c]),
        fv(vec![0.1; c*c]), fv(vec![0.0; c]),
        fv(vec![0.1; c*c]), fv(vec![0.0; c]),
        fv(vec![0.1; c*c]), fv(vec![0.0; c]),
        fv(vec![0.1; c*c]), fv(vec![0.0; c]),
        fv(vec![1.0; c]), fv(vec![0.0; c]),
        fv(vec![0.1; c*h]), fv(vec![0.0; h]),
        fv(vec![0.1; h*c]), fv(vec![0.0; c]),
    ).unwrap();

    let mut model = Sequential::new();
    model.push(AnyLayer::LayerNorm(ln));
    model.push(AnyLayer::Transformer(tb));

    let norm = Normalizer { means: vec![], stds: vec![] };
    let meta = ModelMetadata {
        dataset_name: "tb_test".into(),
        task: TaskType::TransformerSLM,
        feature_names: vec![],
        feature_ranges: vec![],
        class_names: vec![],
        target_name: "".into(),
        target_range: [f(0.0), f(0.0)],
        input_dim: embedding_dim,
        output_dim: embedding_dim,
        tokenizer_state: String::new(),
    };

    let bytes = to_bytes(&Dec, &model, &norm, &meta).unwrap();
    let (m2, _, m2meta) = from_bytes(&Dec, &bytes).unwrap();
    assert_eq!(m2.len(), 2);
    assert_eq!(m2meta.task, TaskType::TransformerSLM);

    let input = Tensor::matrix(4, embedding_dim, fv(vec![0.5; 4 * embedding_dim])).unwrap();
    let out1 = model.forward(&Std, &input).unwrap();
    let out2 = m2.forward(&Std, &input).unwrap();
    for (a, b) in gv(&out1.data).iter().zip(&gv(&out2.data)) {
        assert!((a - b).abs() < 1e-6);
    }
}

#[test]
fn every_cut_file_is_refused() {
    let (m, n, meta) = make_bundle();
    let bytes = to_bytes(&Dec, &m, &n, &meta).unwrap();
    assert!(from_bytes(&Dec, &bytes).is_ok());
    for k in 0..bytes.len() {
        assert!(from_bytes(&Dec, &bytes[..k]).is_err(), "accepted {k} of {} bytes", bytes.len());
    }
}

#[test]
fn int8_files_hold_the_fake_quantized_weights() {
    let data: Vec<f32> = (0..96)
        .map(|i| if i / 12 == 3 { 0.0 } else { (i as f32 * 0.37).sin() * (1 + i / 12) as f32 })
        .collect();
    let l = Linear::new(8, 12, fv(data.clone()), fv(vec![0.25; 12])).unwrap();
    let (_, n, meta) = make_bundle();
    let model = Sequential::new().with(AnyLayer::Linear(l));
    let bytes = to_bytes_quantized(&Dec, &model, &n, &meta).unwrap();
    let (m2, _, _) = from_bytes(&Dec, &bytes).unwrap();
    let read = match &m2.layers()[0] {
        AnyLayer::Linear(l) => gv(&l.weight_f32()),
        _ => panic!("not a linear layer"),
    };
    let mut trained = fv(data);
    assert!(fake_quantize_int8_per_channel(&mut trained, 8));
    assert_eq!(read, gv(&trained));
}

#[test]
fn all_plain_metadata_come_back() {
    let (model, norm, mut meta) = make_bundle();
    meta.dataset_name = "house prices".into();
    meta.task = TaskType::Regression;
    meta.class_names = vec![];
    meta.target_name = "price [EUR".into();
    meta.target_range = [f(-1.5), f(2.25)];
    meta.feature_ranges = vec![[f(0.5), f(1.0)], [f(-3.0), f(4.0)]];
    meta.tokenizer_state = "a b,c]d".into();
    let bytes = to_bytes(&Dec, &model, &norm, &meta).unwrap();
    let (_, _, back) = from_bytes(&Dec, &bytes).unwrap();
    assert_eq!(back.dataset_name, "house prices");
    assert_eq!(back.task, TaskType::Regression);
    assert_eq!(back.feature_names, vec!["a", "b", "c", "d"]);
    assert_eq!(back.feature_ranges, vec![[f(0.5), f(1.0)], [f(-3.0), f(4.0)]]);
    assert!(back.class_names.is_empty());
    assert_eq!(back.target_name, "price [EUR");
    assert_eq!(back.target_range, [f(-1.5), f(2.25)]);
    assert_eq!((back.input_dim, back.output_dim), (4, 3));
    assert_eq!(back.tokenizer_state, "a b,c]d");
}

#[test]
fn files_with_an_empty_normalizer_are_read() {
    let (model, _, meta) = make_bundle();
    let none = Normalizer { means: vec![], stds: vec![] };
    let bytes = to_bytes(&Dec, &model, &none, &meta).unwrap();
    let (m2, n2, meta2) = from_bytes(&Dec, &bytes).unwrap();
    assert_eq!(m2.len(), model.len());
    assert!(n2.means.is_empty() && n2.stds.is_empty());
    assert_eq!(meta2.task, meta.task);
}
