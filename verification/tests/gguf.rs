use ferrum_core::decoder::Sampler;
use ferrum_core::gguf::{f16_to_f32, transpose_2d, Gguf, LlamaLoader, MetaValue, TensorInfo};
use ferrum_core::gguf_blocks::{
    dequantize_bytes, get_scale_min_k4, type_nbytes, GGML_F16, GGML_F32, GGML_Q4_0, GGML_Q4_1,
    GGML_Q4_K, GGML_Q5_K, GGML_Q6_K, GGML_Q8_0, GGML_Q8_1, Q4_K_BLOCK, Q5_K_BLOCK, Q6_K_BLOCK, QK,
    QK_K,
};
use ferrum_core::gguf_meta::{VT_ARRAY, VT_F32, VT_STRING, VT_U32};
use ferrum_core::gguf_listing::tensor_numbers;
use ferrum_core::gguf_open::{first_prefix, open_step, OpenStep};
use ferrum_core::gguf_read::{align_up, parse_header, Header, DEFAULT_ALIGNMENT, GGUF_MAGIC};
use ferrum_core::layer::Forward;
use ferrum_core::llm::LlamaCache;
use ferrum_core::quant::QKind;
use ferrum_core::rng::Rng;
use ferrum_core::{InferError, Math, Tensor, F32};

struct Std;

impl Math for Std {
    fn exp(&self, x: F32) -> F32 {
        f(g(x).exp())
    }
    fn ln(&self, x: F32) -> F32 {
        f(g(x).ln())
    }
    fn tanh(&self, x: F32) -> F32 {
        f(g(x).tanh())
    }
    fn sin(&self, x: F32) -> F32 {
        f(g(x).sin())
    }
    fn cos(&self, x: F32) -> F32 {
        f(g(x).cos())
    }
    fn powi(&self, x: F32, n: i32) -> F32 {
        f(g(x).powi(n))
    }
    fn inv_freq(&self, base: F32, i: usize, dim: usize) -> F32 {
        f((g(base) as f64).powf(-2.0 * i as f64 / dim as f64) as f32)
    }
    fn norm(&self, v: &Vec<F32>) -> F32 {
        let sum: f64 = v.iter().map(|x| (g(*x) as f64) * (g(*x) as f64)).sum();
        f(sum.sqrt() as f32)
    }
}

fn f(x: f32) -> F32 {
    F32::from_bits(x.to_bits())
}

fn g(x: F32) -> f32 {
    f32::from_bits(x.to_bits())
}

#[allow(dead_code)]
fn fv(v: Vec<f32>) -> Vec<F32> {
    v.into_iter().map(f).collect()
}

#[allow(dead_code)]
fn gv(v: &[F32]) -> Vec<f32> {
    v.iter().map(|x| g(*x)).collect()
}

#[allow(dead_code)]
fn mat(r: usize, c: usize, v: Vec<f32>) -> Tensor {
    Tensor::matrix(r, c, fv(v)).unwrap()
}

#[allow(dead_code)]
fn vect(v: Vec<f32>) -> Tensor {
    Tensor::vector(fv(v))
}

/// Takes the token of the largest score.
struct Largest;

impl Sampler for Largest {
    fn sample(&self, scores: &Vec<F32>, _recent: &Vec<usize>, state: u64) -> (usize, u64) {
        let x = gv(scores);
        let best = (0..x.len()).fold(0, |b, i| if x[i] > x[b] { i } else { b });
        (best, state)
    }
}

fn put_u32(o: &mut Vec<u8>, v: u32) {
    o.extend_from_slice(&v.to_le_bytes());
}
fn put_u64(o: &mut Vec<u8>, v: u64) {
    o.extend_from_slice(&v.to_le_bytes());
}
fn put_str(o: &mut Vec<u8>, s: &str) {
    put_u64(o, s.len() as u64);
    o.extend_from_slice(s.as_bytes());
}
fn f32_to_f16(x: f32) -> u16 {
    let bits = x.to_bits();
    let sign = ((bits >> 31) & 1) as u16;
    let exp = ((bits >> 23) & 0xFF) as i32 - 127 + 15;
    let mant = (bits >> 13) & 0x3FF;
    if x == 0.0 {
        return sign << 15;
    }
    (sign << 15) | ((exp as u16) << 10) | mant as u16
}

fn synth_gguf() -> (Vec<u8>, Vec<f32>, Vec<f32>, Vec<f32>) {
    let mut header = Vec::new();
    put_u32(&mut header, GGUF_MAGIC);
    put_u32(&mut header, 3);
    put_u64(&mut header, 3);
    put_u64(&mut header, 1);

    put_str(&mut header, "general.architecture");
    put_u32(&mut header, VT_STRING);
    put_str(&mut header, "ferrum-test");

    let f32_vals: Vec<f32> = (0..QK as i32).map(|i| (i - 16) as f32 * 0.25).collect();
    let q8_d = 0.5f32;
    let q8_vals: Vec<f32> = (0..QK as i32).map(|i| q8_d * (i - 16) as f32).collect();
    let q4_d = 0.25f32;
    let q4_vals: Vec<f32> = (0..QK as i32)
        .map(|i| q4_d * ((i % 15) - 8) as f32)
        .collect();

    let mut data = Vec::new();
    let off_f32 = data.len() as u64;
    for &v in &f32_vals {
        data.extend_from_slice(&v.to_le_bytes());
    }
    let off_q8 = data.len() as u64;
    data.extend_from_slice(&f32_to_f16(q8_d).to_le_bytes());
    for i in 0..QK as i32 {
        data.push(((i - 16) as i8) as u8);
    }
    let off_q4 = data.len() as u64;
    data.extend_from_slice(&f32_to_f16(q4_d).to_le_bytes());
    for j in 0..(QK / 2) {
        let lo = (j as i32 % 15) as u8 & 0x0F;
        let hi = ((j + QK / 2) as i32 % 15) as u8 & 0x0F;
        data.push((hi << 4) | lo);
    }

    let mut dir = Vec::new();
    for (name, ty, off) in [
        ("t_f32", GGML_F32, off_f32),
        ("t_q8", GGML_Q8_0, off_q8),
        ("t_q4", GGML_Q4_0, off_q4),
    ] {
        put_str(&mut dir, name);
        put_u32(&mut dir, 1);
        put_u64(&mut dir, QK as u64);
        put_u32(&mut dir, ty);
        put_u64(&mut dir, off);
    }

    let mut bytes = header;
    bytes.extend_from_slice(&dir);
    let pad = align_up(bytes.len(), DEFAULT_ALIGNMENT as usize).unwrap() - bytes.len();
    bytes.extend(std::iter::repeat_n(0u8, pad));
    bytes.extend_from_slice(&data);

    let mut q4_expected = vec![0.0f32; QK];
    for j in 0..(QK / 2) {
        q4_expected[j] = q4_d * ((j as i32 % 15) - 8) as f32;
        q4_expected[j + QK / 2] = q4_d * (((j + QK / 2) as i32 % 15) - 8) as f32;
    }
    let _ = (&q8_vals, &q4_vals);
    (bytes, f32_vals, q8_vals, q4_expected)
}

#[test]
fn parses_header_metadata_and_directory() {
    let (bytes, _, _, _) = synth_gguf();
    let file = Gguf::parse(bytes).unwrap();
    assert_eq!(file.version, 3);
    assert_eq!(file.architecture(), Some("ferrum-test"));
    assert_eq!(file.tensors.len(), 3);
    assert!(file.tensor("t_f32").is_some());
    assert_eq!(file.tensor("t_q8").unwrap().ggml_type, GGML_Q8_0);
    assert_eq!(file.tensor("t_q4").unwrap().num_elements(), QK);
}

#[test]
fn hostile_dims_error_instead_of_panicking() {
    let t = TensorInfo {
        name: "x".into(),
        dims: vec![u64::MAX, 8],
        ggml_type: GGML_F32,
        offset: 0,
    };
    assert_eq!(t.num_elements(), usize::MAX);
    assert!(type_nbytes(GGML_F32, t.num_elements()).is_err());
    assert!(type_nbytes(GGML_F16, t.num_elements()).is_err());
}

#[test]
fn dequantizes_f32_q8_and_q4() {
    let (bytes, f32_vals, q8_vals, q4_vals) = synth_gguf();
    let file = Gguf::parse(bytes).unwrap();

    let ft = file.dequantize(file.tensor("t_f32").unwrap()).unwrap();
    assert_eq!(gv(&ft), f32_vals);

    let q8 = file.dequantize(file.tensor("t_q8").unwrap()).unwrap();
    for (a, b) in gv(&q8).iter().zip(&q8_vals) {
        assert!((a - b).abs() < 1e-4, "q8 {a} vs {b}");
    }

    let q4 = file.dequantize(file.tensor("t_q4").unwrap()).unwrap();
    for (a, b) in gv(&q4).iter().zip(&q4_vals) {
        assert!((a - b).abs() < 1e-4, "q4 {a} vs {b}");
    }
}

#[test]
fn imports_tensor_as_int4_qweight() {
    let (bytes, _, _, _) = synth_gguf();
    let file = Gguf::parse(bytes).unwrap();
    let qw = file.quantized_weight("t_q8", 4, QKind::Int4).unwrap();
    assert_eq!((qw.rows, qw.cols), (4, 8));
    assert_eq!(qw.kind, QKind::Int4);
    let back = gv(&qw.to_f32());
    let direct = gv(&file.dequantize(file.tensor("t_q8").unwrap()).unwrap());
    let mae: f32 = back
        .iter()
        .zip(&direct)
        .map(|(a, b)| (a - b).abs())
        .sum::<f32>()
        / 32.0;
    assert!(mae < 0.3, "int4 import mae {mae}");
}

#[test]
fn f16_roundtrip_of_simple_values() {
    for &v in &[0.0f32, 1.0, -1.0, 0.5, -2.5, 16.0] {
        let h = f32_to_f16(v);
        assert!((g(f16_to_f32(h)) - v).abs() < 1e-3, "f16 {v}");
    }
}

#[test]
fn rejects_bad_magic_and_version() {
    assert!(Gguf::parse(vec![0, 1, 2, 3, 4, 5, 6, 7]).is_err());
    let (mut bytes, _, _, _) = synth_gguf();
    bytes[4] = 99;
    assert!(Gguf::parse(bytes).is_err());
}

#[test]
fn unsupported_architecture_is_rejected_clearly() {
    let (bytes, _, _, _) = synth_gguf();
    let file = Gguf::parse(bytes).unwrap();
    match file.load_llama(QKind::Int8) {
        Err(InferError::Format(_)) => {}
        _ => panic!("expected a Format error for an unsupported architecture"),
    }
}

#[test]
fn transpose_2d_is_correct() {
    let m = fv(vec![1.0, 2.0, 3.0, 4.0, 5.0, 6.0]);
    assert_eq!(transpose_2d(m, 2, 3), fv(vec![1.0, 4.0, 2.0, 5.0, 3.0, 6.0]));
}


fn put_f32(o: &mut Vec<u8>, v: f32) {
    o.extend_from_slice(&v.to_bits().to_le_bytes());
}
fn kv_u32(o: &mut Vec<u8>, key: &str, v: u32) {
    put_str(o, key);
    put_u32(o, VT_U32);
    put_u32(o, v);
}
fn kv_f32(o: &mut Vec<u8>, key: &str, v: f32) {
    put_str(o, key);
    put_u32(o, VT_F32);
    put_f32(o, v);
}
fn kv_str(o: &mut Vec<u8>, key: &str, v: &str) {
    put_str(o, key);
    put_u32(o, VT_STRING);
    put_str(o, v);
}

struct TBuf {
    infos: Vec<u8>,
    data: Vec<u8>,
    count: u32,
}
impl TBuf {
    fn new() -> Self {
        Self {
            infos: Vec::new(),
            data: Vec::new(),
            count: 0,
        }
    }
    fn add(&mut self, name: &str, ne: &[u64], vals: &[f32]) {
        let off = self.data.len() as u64;
        for &v in vals {
            put_f32(&mut self.data, v);
        }
        put_str(&mut self.infos, name);
        put_u32(&mut self.infos, ne.len() as u32);
        for &d in ne {
            put_u64(&mut self.infos, d);
        }
        put_u32(&mut self.infos, GGML_F32);
        put_u64(&mut self.infos, off);
        self.count += 1;
    }
}

fn synth_llama_cfg(arch: &str, with_output: bool, with_bias: bool) -> Vec<u8> {
    let (vocab, dim, n_heads, n_layers, ffn) = (10usize, 8usize, 2usize, 2usize, 16usize);
    let head_dim = dim / n_heads;
    let qd = n_heads * head_dim;
    let mut seed = 12345u64;
    let mut rnd = |n: usize| -> Vec<f32> {
        (0..n)
            .map(|_| {
                seed ^= seed << 13;
                seed ^= seed >> 7;
                seed ^= seed << 17;
                (seed >> 40) as f32 / (1u64 << 23) as f32 - 1.0
            })
            .collect()
    };

    let mut t = TBuf::new();
    t.add(
        "token_embd.weight",
        &[dim as u64, vocab as u64],
        &rnd(vocab * dim),
    );
    for i in 0..n_layers {
        let p = format!("blk.{i}");
        t.add(
            &format!("{p}.attn_norm.weight"),
            &[dim as u64],
            &vec![1.0; dim],
        );
        t.add(
            &format!("{p}.attn_q.weight"),
            &[dim as u64, qd as u64],
            &rnd(dim * qd),
        );
        t.add(
            &format!("{p}.attn_k.weight"),
            &[dim as u64, qd as u64],
            &rnd(dim * qd),
        );
        t.add(
            &format!("{p}.attn_v.weight"),
            &[dim as u64, qd as u64],
            &rnd(dim * qd),
        );
        if with_bias {
            t.add(&format!("{p}.attn_q.bias"), &[qd as u64], &rnd(qd));
            t.add(&format!("{p}.attn_k.bias"), &[qd as u64], &rnd(qd));
            t.add(&format!("{p}.attn_v.bias"), &[qd as u64], &rnd(qd));
        }
        t.add(
            &format!("{p}.attn_output.weight"),
            &[qd as u64, dim as u64],
            &rnd(qd * dim),
        );
        t.add(
            &format!("{p}.ffn_norm.weight"),
            &[dim as u64],
            &vec![1.0; dim],
        );
        t.add(
            &format!("{p}.ffn_gate.weight"),
            &[dim as u64, ffn as u64],
            &rnd(dim * ffn),
        );
        t.add(
            &format!("{p}.ffn_up.weight"),
            &[dim as u64, ffn as u64],
            &rnd(dim * ffn),
        );
        t.add(
            &format!("{p}.ffn_down.weight"),
            &[ffn as u64, dim as u64],
            &rnd(ffn * dim),
        );
    }
    t.add("output_norm.weight", &[dim as u64], &vec![1.0; dim]);
    if with_output {
        t.add(
            "output.weight",
            &[dim as u64, vocab as u64],
            &rnd(dim * vocab),
        );
    }

    let mut meta = Vec::new();
    kv_str(&mut meta, "general.architecture", arch);
    kv_u32(&mut meta, &format!("{arch}.embedding_length"), dim as u32);
    kv_u32(&mut meta, &format!("{arch}.block_count"), n_layers as u32);
    kv_u32(
        &mut meta,
        &format!("{arch}.attention.head_count"),
        n_heads as u32,
    );
    kv_u32(
        &mut meta,
        &format!("{arch}.attention.head_count_kv"),
        n_heads as u32,
    );
    kv_u32(
        &mut meta,
        &format!("{arch}.feed_forward_length"),
        ffn as u32,
    );
    kv_u32(&mut meta, &format!("{arch}.context_length"), 32);
    kv_f32(
        &mut meta,
        &format!("{arch}.attention.layer_norm_rms_epsilon"),
        1e-5,
    );
    kv_f32(&mut meta, &format!("{arch}.rope.freq_base"), 10000.0);
    let n_meta = 9u64;

    let mut bytes = Vec::new();
    put_u32(&mut bytes, GGUF_MAGIC);
    put_u32(&mut bytes, 3);
    put_u64(&mut bytes, t.count as u64);
    put_u64(&mut bytes, n_meta);
    bytes.extend_from_slice(&meta);
    bytes.extend_from_slice(&t.infos);
    let pad = align_up(bytes.len(), DEFAULT_ALIGNMENT as usize).unwrap() - bytes.len();
    bytes.extend(std::iter::repeat_n(0u8, pad));
    bytes.extend_from_slice(&t.data);
    bytes
}

fn synth_llama() -> Vec<u8> {
    synth_llama_cfg("llama", true, false)
}

#[test]
fn loads_synthetic_llama_and_runs() {
    let file = Gguf::parse(synth_llama()).unwrap();
    assert_eq!(file.architecture(), Some("llama"));
    let model = file.load_llama(QKind::Int8).unwrap();
    assert_eq!(model.cfg.vocab_size, 10);
    assert_eq!(model.cfg.model_dim, 8);
    assert_eq!(model.blocks.len(), 2);

    let tokens = [1usize, 4, 2, 7, 0];
    let logits = model.forward_tokens(&Std, &tokens).unwrap();
    assert_eq!(logits.shape, vec![tokens.len(), model.cfg.vocab_size]);
    assert!(gv(&logits.data).iter().all(|v| v.is_finite()));

    let mut cache = LlamaCache::new(model.blocks.len());
    let (_, vocab) = logits.matrix_dims().unwrap();
    for (ti, &tok) in tokens.iter().enumerate() {
        let step = gv(&model.forward_one(&Std, tok, &mut cache).unwrap());
        for (v, &s) in step.iter().enumerate() {
            assert!(
                (s - g(logits.data[ti * vocab + v])).abs() < 1e-2,
                "imported model cached vs full mismatch at {ti},{v}"
            );
        }
    }

    let out = model
        .generate(&Std, &[1, 2], 6, &Largest, None, &mut Rng::new(1))
        .unwrap();
    assert_eq!(out.len(), 6);
    assert!(out.iter().all(|&t| t < model.cfg.vocab_size));
}

#[test]
fn linear_from_applies_transpose_so_y_equals_w_times_x() {
    let (n_in, n_out) = (4usize, 3usize);
    let w_gguf: Vec<f32> = (0..n_out * n_in).map(|i| (i as f32 * 0.1) - 0.5).collect();
    let mut t = TBuf::new();
    t.add("w", &[n_in as u64, n_out as u64], &w_gguf);
    let mut meta = Vec::new();
    kv_str(&mut meta, "general.architecture", "llama");
    let mut bytes = Vec::new();
    put_u32(&mut bytes, GGUF_MAGIC);
    put_u32(&mut bytes, 3);
    put_u64(&mut bytes, 1);
    put_u64(&mut bytes, 1);
    bytes.extend_from_slice(&meta);
    bytes.extend_from_slice(&t.infos);
    let pad = align_up(bytes.len(), DEFAULT_ALIGNMENT as usize).unwrap() - bytes.len();
    bytes.extend(std::iter::repeat_n(0u8, pad));
    bytes.extend_from_slice(&t.data);

    let file = Gguf::parse(bytes).unwrap();
    let lin = file.linear_from("w", None, Some(QKind::Int8)).unwrap();
    let x = vec![0.3f32, -0.7, 0.2, 0.9];
    let y = lin
        .forward(&Std, &mat(1, n_in, x.clone()))
        .unwrap();
    for o in 0..n_out {
        let want: f32 = (0..n_in).map(|i| w_gguf[o * n_in + i] * x[i]).sum();
        assert!(
            (g(y.data[o]) - want).abs() < 0.05,
            "y[{o}]={} want {want}",
            g(y.data[o])
        );
    }
}

#[test]
fn loads_tied_embedding_llama() {
    let file = Gguf::parse(synth_llama_cfg("llama", false, false)).unwrap();
    assert!(file.tensor("output.weight").is_none());
    let model = file.load_llama(QKind::Int8).unwrap();
    let logits = model.forward_tokens(&Std, &[1, 2, 3]).unwrap();
    assert_eq!(logits.shape, vec![3, model.cfg.vocab_size]);
    assert!(gv(&logits.data).iter().all(|v| v.is_finite()));
}

#[test]
fn loads_qwen2_with_attention_biases() {
    let file = Gguf::parse(synth_llama_cfg("qwen2", true, true)).unwrap();
    assert_eq!(file.architecture(), Some("qwen2"));
    let model = file.load_llama(QKind::Int4).unwrap();
    let logits = model.forward_tokens(&Std, &[0, 5, 9]).unwrap();
    assert!(gv(&logits.data).iter().all(|v| v.is_finite()));
}

#[test]
fn load_llama_errors_on_missing_metadata_and_tensors() {
    let mut bytes = Vec::new();
    put_u32(&mut bytes, GGUF_MAGIC);
    put_u32(&mut bytes, 3);
    put_u64(&mut bytes, 0);
    put_u64(&mut bytes, 1);
    kv_str(&mut bytes, "general.architecture", "llama");
    let pad = align_up(bytes.len(), DEFAULT_ALIGNMENT as usize).unwrap() - bytes.len();
    bytes.extend(std::iter::repeat_n(0u8, pad));
    let file = Gguf::parse(bytes).unwrap();
    assert!(
        file.load_llama(QKind::Int8).is_err(),
        "missing embedding_length must error"
    );
}


#[test]
fn dequant_q8_1_block() {
    let d = 0.5f32;
    let mut raw = Vec::new();
    raw.extend_from_slice(&f32_to_f16(d).to_le_bytes());
    raw.extend_from_slice(&f32_to_f16(0.0).to_le_bytes());
    for i in 0..QK as i32 {
        raw.push(((i - 16) as i8) as u8);
    }
    let out = gv(&dequantize_bytes(GGML_Q8_1, &raw, QK));
    for (i, &o) in out.iter().enumerate() {
        assert!((o - d * (i as i32 - 16) as f32).abs() < 1e-3);
    }
}

#[test]
fn dequant_q4_1_block() {
    let (d, m) = (0.25f32, 1.0f32);
    let mut raw = Vec::new();
    raw.extend_from_slice(&f32_to_f16(d).to_le_bytes());
    raw.extend_from_slice(&f32_to_f16(m).to_le_bytes());
    let los: Vec<u8> = (0..16).map(|j| (j % 15) as u8).collect();
    let his: Vec<u8> = (0..16).map(|j| ((j + 3) % 15) as u8).collect();
    for j in 0..16 {
        raw.push((his[j] << 4) | los[j]);
    }
    let out = gv(&dequantize_bytes(GGML_Q4_1, &raw, QK));
    for j in 0..16 {
        assert!((out[j] - (d * los[j] as f32 + m)).abs() < 1e-3);
        assert!((out[j + 16] - (d * his[j] as f32 + m)).abs() < 1e-3);
    }
}

#[test]
fn quantized_tensor_count_must_be_block_multiple() {
    assert!(type_nbytes(GGML_Q8_0, 30).is_err());
    assert!(type_nbytes(GGML_F32, 30).is_ok());
    assert!(type_nbytes(999, 32).is_err());
}


#[test]
fn k_quant_block_sizes() {
    assert_eq!(type_nbytes(GGML_Q4_K, QK_K).unwrap(), Q4_K_BLOCK);
    assert_eq!(type_nbytes(GGML_Q5_K, QK_K).unwrap(), Q5_K_BLOCK);
    assert_eq!(type_nbytes(GGML_Q6_K, QK_K).unwrap(), Q6_K_BLOCK);
    assert!(type_nbytes(GGML_Q4_K, 200).is_err());
}

#[test]
fn dequant_q6_k_constant_block() {
    let mut raw = vec![0x88u8; QK_K / 2];
    raw.extend_from_slice(&[0xAAu8; QK_K / 4]);
    raw.extend(std::iter::repeat_n(2i8 as u8, QK_K / 16));
    raw.extend_from_slice(&f32_to_f16(0.5).to_le_bytes());
    let out = gv(&dequantize_bytes(GGML_Q6_K, &raw, QK_K));
    assert_eq!(out.len(), QK_K);
    for &v in &out {
        assert!((v - 8.0).abs() < 1e-3, "q6_k got {v}");
    }
}

const K_SCALES_D2_M0: [u8; 12] = [2, 2, 2, 2, 0, 0, 0, 0, 2, 2, 2, 2];

#[test]
fn get_scale_min_k4_unpacks_all_subblocks() {
    for j in 0..8 {
        let (d, m) = get_scale_min_k4(j, &K_SCALES_D2_M0);
        assert_eq!((d, m), (2, 0), "sub-block {j}");
    }
}

#[test]
fn dequant_q4_k_constant_block() {
    let mut raw = Vec::new();
    raw.extend_from_slice(&f32_to_f16(0.5).to_le_bytes());
    raw.extend_from_slice(&f32_to_f16(0.0).to_le_bytes());
    raw.extend_from_slice(&K_SCALES_D2_M0);
    raw.extend_from_slice(&[0x33u8; QK_K / 2]);
    let out = gv(&dequantize_bytes(GGML_Q4_K, &raw, QK_K));
    for &v in &out {
        assert!((v - 3.0).abs() < 1e-3, "q4_k got {v}");
    }
}

#[test]
fn dequant_q5_k_low_and_high_bits() {
    let build = |qh: u8| {
        let mut raw = Vec::new();
        raw.extend_from_slice(&f32_to_f16(0.5).to_le_bytes());
        raw.extend_from_slice(&f32_to_f16(0.0).to_le_bytes());
        raw.extend_from_slice(&K_SCALES_D2_M0);
        raw.extend_from_slice(&[qh; QK_K / 8]);
        raw.extend_from_slice(&[0x33u8; QK_K / 2]);
        raw
    };
    for v in gv(&dequantize_bytes(GGML_Q5_K, &build(0x00), QK_K)) {
        assert!((v - 3.0).abs() < 1e-3, "q5_k low {v}");
    }
    for v in gv(&dequantize_bytes(GGML_Q5_K, &build(0xFF), QK_K)) {
        assert!((v - 19.0).abs() < 1e-3, "q5_k high {v}");
    }
}


#[test]
fn load_llama_f32_precision_skips_requantization() {
    let file = Gguf::parse(synth_llama()).unwrap();
    let model = file.load_llama_prec(None).unwrap();
    let logits = model.forward_tokens(&Std, &[1, 2, 3]).unwrap();
    assert_eq!(logits.shape, vec![3, model.cfg.vocab_size]);
    assert!(gv(&logits.data).iter().all(|v| v.is_finite()));
}


#[test]
fn f16_special_values() {
    assert_eq!(g(f16_to_f32(0x0000)), 0.0);
    assert_eq!(g(f16_to_f32(0x8000)), 0.0);
    assert_eq!(g(f16_to_f32(0x3C00)), 1.0);
    assert!(g(f16_to_f32(0x7C00)).is_infinite() && g(f16_to_f32(0x7C00)) > 0.0);
    assert!(g(f16_to_f32(0xFC00)).is_infinite() && g(f16_to_f32(0xFC00)) < 0.0);
    assert!(g(f16_to_f32(0x7E00)).is_nan());
    let sub = g(f16_to_f32(0x0001));
    assert!(sub > 0.0 && (sub - 2f32.powi(-24)).abs() < 1e-12);
}


#[test]
fn metavalue_accessors() {
    assert_eq!(MetaValue::U8(5).as_usize(), Some(5));
    assert_eq!(MetaValue::U64(7).as_usize(), Some(7));
    assert_eq!(MetaValue::I32(9).as_usize(), Some(9));
    assert_eq!(MetaValue::I32(-1).as_usize(), None);
    assert_eq!(MetaValue::I8(-3).as_usize(), None);
    assert_eq!(MetaValue::F32(f(2.5)).as_f32(), Some(f(2.5)));
    assert_eq!(MetaValue::U16(4).as_f32(), Some(f(4.0)));
    assert_eq!(MetaValue::String("hi".into()).as_str(), Some("hi"));
    assert_eq!(MetaValue::Bool(true).as_usize(), None);
    assert_eq!(MetaValue::Array(vec![MetaValue::U8(1)]).as_f32(), None);
}

#[test]
fn parse_rejects_truncation() {
    let mut bytes = synth_llama();
    bytes.truncate(bytes.len() - 20);
    let file = Gguf::parse(bytes);
    if let Ok(file) = file {
        let last = file.tensors.last().unwrap();
        assert!(file.dequantize(last).is_err());
    }
}

#[test]
fn parse_rejects_nested_arrays_and_unknown_types() {
    let mut bytes = Vec::new();
    put_u32(&mut bytes, GGUF_MAGIC);
    put_u32(&mut bytes, 3);
    put_u64(&mut bytes, 0);
    put_u64(&mut bytes, 1);
    put_str(&mut bytes, "k");
    put_u32(&mut bytes, VT_ARRAY);
    put_u32(&mut bytes, VT_ARRAY);
    put_u64(&mut bytes, 1);
    assert!(Gguf::parse(bytes).is_err());
}

#[test]
fn a_prefix_of_a_header_is_cut_off() {
    let bytes = synth_llama();
    let whole = parse_header(&bytes).unwrap();
    assert_eq!(whole.tensors.len(), 21);
    match parse_header(&bytes[..60]) {
        Err(stop) => assert!(stop.is_truncation()),
        Ok(_) => panic!("sixty bytes hold no header"),
    }
    match parse_header(&[0u8; 64]) {
        Err(stop) => assert!(!stop.is_truncation()),
        Ok(_) => panic!("no magic"),
    }
}

#[test]
fn names_that_are_not_text_are_read_with_replacements() {
    let mut bytes = Vec::new();
    put_u32(&mut bytes, GGUF_MAGIC);
    put_u32(&mut bytes, 3);
    put_u64(&mut bytes, 0);
    put_u64(&mut bytes, 1);
    put_str(&mut bytes, "general.architecture");
    put_u32(&mut bytes, VT_STRING);
    put_u64(&mut bytes, 2);
    bytes.extend_from_slice(&[b'a', 0xff]);
    let pad = align_up(bytes.len(), DEFAULT_ALIGNMENT as usize).unwrap() - bytes.len();
    bytes.extend(std::iter::repeat_n(0u8, pad));
    assert_eq!(Gguf::parse(bytes).unwrap().architecture(), Some("a\u{fffd}"));
}

/// Opens a file of which prefixes are read, and counts the reads.
fn open_streamed(bytes: &[u8], first: usize) -> (std::result::Result<Header, InferError>, usize) {
    let mut cap = first;
    let mut reads = 0;
    loop {
        reads += 1;
        match open_step(&bytes[..cap.min(bytes.len())], cap, bytes.len()) {
            OpenStep::Ready(h) => return (Ok(h), reads),
            OpenStep::Grow(more) => cap = more,
            OpenStep::Refuse(e) => return (Err(e), reads),
        }
    }
}

#[test]
fn streamed_open_matches_in_memory_parse() {
    let bytes = synth_llama();
    let mem = Gguf::parse(bytes.clone()).unwrap();
    let header = open_streamed(&bytes, first_prefix(bytes.len())).0.unwrap();
    let streamed = header.listing(bytes.len());
    assert_eq!(streamed.tensors.len(), mem.tensors.len());
    assert_eq!(streamed.architecture(), Some("llama"));

    let tm = mem.tensor("token_embd.weight").unwrap();
    let ts = streamed.tensor("token_embd.weight").unwrap();
    let (start, end) = streamed.range(ts).unwrap();
    assert_eq!(
        mem.dequantize(tm).unwrap(),
        tensor_numbers(ts, &bytes[start..end]).unwrap()
    );

    let mut loader = LlamaLoader::new(streamed, Some(QKind::Int8)).unwrap();
    while let Some((start, end)) = loader.wanted() {
        loader.feed(&bytes[start..end]);
    }
    let model = loader.finish().unwrap();
    assert_eq!(model.cfg.vocab_size, 10);
    let out = model.forward_tokens(&Std, &[1, 2, 3]).unwrap();
    assert!(gv(&out.data).iter().all(|v| v.is_finite()));
    let whole = mem.load_llama(QKind::Int8).unwrap();
    assert_eq!(out.data, whole.forward_tokens(&Std, &[1, 2, 3]).unwrap().data);
}

#[test]
fn prefixes_grow_until_the_header_is_complete() {
    assert_eq!(first_prefix(0), 1);
    assert_eq!(first_prefix(77), 77);
    assert_eq!(first_prefix(usize::MAX), 1 << 20);
    let bytes = synth_llama();
    let (header, reads) = open_streamed(&bytes, 1);
    assert_eq!(header.unwrap().data_offset, Gguf::parse(bytes.clone()).unwrap().data_offset);
    assert!(reads > 8);
    assert!(matches!(open_streamed(&bytes[..60], 1).0, Err(InferError::Format(_))));
    assert!(matches!(open_streamed(b"nothing of the kind", 4).0, Err(InferError::Format(_))));
    let offset = Gguf::parse(bytes.clone()).unwrap().data_offset;
    let cut = &bytes[..offset - 1];
    match open_step(&bytes, bytes.len(), cut.len()) {
        OpenStep::Refuse(InferError::Format(t)) => {
            assert_eq!(t, "GGUF tensor-data section begins past EOF");
        }
        _ => panic!("the data begins behind the end"),
    }
}

#[test]
fn tensors_that_may_be_absent_are_passed_over() {
    for (arch, head, bias) in [("llama", false, false), ("qwen2", true, true)] {
        let bytes = synth_llama_cfg(arch, head, bias);
        let mem = Gguf::parse(bytes.clone()).unwrap();
        let mut loader = LlamaLoader::new(mem.listing(), None).unwrap();
        let mut fed = 0;
        while let Some((start, end)) = loader.wanted() {
            loader.feed(&bytes[start..end]);
            fed += 1;
        }
        assert_eq!(fed, mem.tensors.len());
        let model = loader.finish().unwrap();
        let again = mem.load_llama_prec(None).unwrap();
        assert_eq!(model.lm_head.weight.data, again.lm_head.weight.data);
        assert_eq!(
            gv(&model.blocks[0].attn.wq.bias.data).iter().any(|x| *x != 0.0),
            bias
        );
    }
    let short = tensor_numbers(
        &TensorInfo { name: "t".into(), dims: vec![2], ggml_type: GGML_F32, offset: 0 },
        &[0u8; 7],
    );
    assert!(matches!(short, Err(InferError::Format(_))));
}
