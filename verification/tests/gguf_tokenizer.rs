use ferrum_core::gguf::Gguf;
use ferrum_core::gguf_tokenizer::{gpt2_byte_tables, pretokenize, GgufTokenizer, TokModel};

fn put_u32(o: &mut Vec<u8>, v: u32) {
    o.extend_from_slice(&v.to_le_bytes());
}
fn put_u64(o: &mut Vec<u8>, v: u64) {
    o.extend_from_slice(&v.to_le_bytes());
}
fn put_str(o: &mut Vec<u8>, s: &str) {
    put_u64(o, s.len() as u64);
    o.extend_from_slice(s.as_bytes());
}
fn kv_str(o: &mut Vec<u8>, key: &str, v: &str) {
    put_str(o, key);
    put_u32(o, 8);
    put_str(o, v);
}
fn kv_u32(o: &mut Vec<u8>, key: &str, v: u32) {
    put_str(o, key);
    put_u32(o, 4);
    put_u32(o, v);
}
fn kv_str_array(o: &mut Vec<u8>, key: &str, items: &[&str]) {
    put_str(o, key);
    put_u32(o, 9);
    put_u32(o, 8);
    put_u64(o, items.len() as u64);
    for s in items {
        put_str(o, s);
    }
}

fn tok_gguf(kvs: &[u8], n_kv: u64) -> Gguf {
    let mut bytes = Vec::new();
    put_u32(&mut bytes, 0x4655_4747);
    put_u32(&mut bytes, 3);
    put_u64(&mut bytes, 0);
    put_u64(&mut bytes, n_kv);
    bytes.extend_from_slice(kvs);
    let pad = bytes.len().div_ceil(32) * 32 - bytes.len();
    bytes.extend(std::iter::repeat_n(0u8, pad));
    Gguf::parse(bytes).unwrap()
}

#[test]
fn bpe_roundtrips_via_merges() {
    let toks = ["a", "b", "c", "\u{0120}", "ab", "abc", "\u{0120}a"];
    let merges = ["a b", "ab c", "\u{0120} a"];
    let mut kvs = Vec::new();
    kv_str(&mut kvs, "tokenizer.ggml.model", "gpt2");
    kv_str_array(&mut kvs, "tokenizer.ggml.tokens", &toks);
    kv_str_array(&mut kvs, "tokenizer.ggml.merges", &merges);
    kv_u32(&mut kvs, "tokenizer.ggml.bos_token_id", 0);
    let g = tok_gguf(&kvs, 4);

    let tk = GgufTokenizer::from_gguf(&g).unwrap();
    assert_eq!(tk.model(), TokModel::Bpe);
    assert_eq!(tk.encode("abc"), vec![5]);
    assert_eq!(tk.decode(&[5]), "abc");
    assert_eq!(tk.encode(" a"), vec![6]);
    assert_eq!(tk.decode(&tk.encode("abc")), "abc");
}

#[test]
fn spm_decode_handles_space_marker_and_byte_fallback() {
    let toks = ["<unk>", "\u{2581}hi", "\u{2581}", "<0x41>"];
    let mut kvs = Vec::new();
    kv_str(&mut kvs, "tokenizer.ggml.model", "llama");
    kv_str_array(&mut kvs, "tokenizer.ggml.tokens", &toks);
    kv_u32(&mut kvs, "tokenizer.ggml.eos_token_id", 0);
    let g = tok_gguf(&kvs, 3);

    let tk = GgufTokenizer::from_gguf(&g).unwrap();
    assert_eq!(tk.model(), TokModel::Spm);
    assert_eq!(tk.decode(&[1]), "hi");
    assert_eq!(tk.decode(&[3]), "A");
    assert_eq!(tk.eos(), Some(0));
}

#[test]
fn beginning_token_is_the_one_named() {
    let mut kvs = Vec::new();
    kv_str(&mut kvs, "tokenizer.ggml.model", "llama");
    kv_str_array(&mut kvs, "tokenizer.ggml.tokens", &["<unk>", "<s>", "</s>"]);
    let none = GgufTokenizer::from_gguf(&tok_gguf(&kvs, 2)).unwrap();
    assert_eq!((none.bos(), none.eos()), (None, None));
    kv_u32(&mut kvs, "tokenizer.ggml.bos_token_id", 1);
    kv_u32(&mut kvs, "tokenizer.ggml.eos_token_id", 2);
    let both = GgufTokenizer::from_gguf(&tok_gguf(&kvs, 4)).unwrap();
    assert_eq!((both.bos(), both.eos()), (Some(1), Some(2)));
}

#[test]
fn spm_encode_greedy_longest_match() {
    let toks = ["<unk>", "\u{2581}he", "\u{2581}", "h", "e"];
    let mut kvs = Vec::new();
    kv_str(&mut kvs, "tokenizer.ggml.model", "spm");
    kv_str_array(&mut kvs, "tokenizer.ggml.tokens", &toks);
    let g = tok_gguf(&kvs, 2);
    let tk = GgufTokenizer::from_gguf(&g).unwrap();
    assert_eq!(tk.encode("he"), vec![1]);
}

#[test]
fn spm_encode_is_bounded_and_roundtrips_on_long_input() {
    let toks = ["<unk>", "\u{2581}", "a", "b", "ab"];
    let mut kvs = Vec::new();
    kv_str(&mut kvs, "tokenizer.ggml.model", "spm");
    kv_str_array(&mut kvs, "tokenizer.ggml.tokens", &toks);
    let g = tok_gguf(&kvs, 2);
    let tk = GgufTokenizer::from_gguf(&g).unwrap();
    assert_eq!(tk.max_token_len, 5);
    let input = "ab".repeat(10_000);
    let ids = tk.encode(&input);
    assert!(!ids.is_empty());
    assert_eq!(tk.decode(&ids), input, "SPM long-input round-trip");
}

#[test]
fn bpe_roundtrips_long_input_with_reused_key_buffer() {
    let toks = ["a", "b", "c", "\u{0120}", "ab", "abc", "\u{0120}a"];
    let merges = ["a b", "ab c", "\u{0120} a"];
    let mut kvs = Vec::new();
    kv_str(&mut kvs, "tokenizer.ggml.model", "gpt2");
    kv_str_array(&mut kvs, "tokenizer.ggml.tokens", &toks);
    kv_str_array(&mut kvs, "tokenizer.ggml.merges", &merges);
    let g = tok_gguf(&kvs, 3);
    let tk = GgufTokenizer::from_gguf(&g).unwrap();
    let input = "abc abc abc abc abc";
    assert_eq!(tk.decode(&tk.encode(input)), input, "BPE round-trip");
}

#[test]
fn unsupported_or_missing_tokenizer_errors() {
    let mut kvs = Vec::new();
    kv_str(&mut kvs, "tokenizer.ggml.model", "wordpiece");
    let g = tok_gguf(&kvs, 1);
    assert!(GgufTokenizer::from_gguf(&g).is_err());

    let empty = tok_gguf(&[], 0);
    assert!(GgufTokenizer::from_gguf(&empty).is_err());
}

#[test]
fn gpt2_byte_tables_are_a_bijection() {
    let (enc, dec) = gpt2_byte_tables();
    for b in 0u16..256 {
        let b = b as u8;
        assert_eq!(
            dec[enc[b as usize] as usize],
            Some(b),
            "byte {b} not invertible"
        );
    }
    let known = dec.iter().filter(|b| b.is_some()).count();
    assert_eq!(known, 256, "encoder is not injective");
    assert_eq!(enc[b' ' as usize], '\u{0120}');
}

#[test]
fn pretokenize_attaches_leading_space() {
    assert_eq!(
        pretokenize("hi there"),
        vec!["hi".to_string(), " there".to_string()]
    );
    assert_eq!(
        pretokenize("a1!"),
        vec!["a".to_string(), "1".to_string(), "!".to_string()]
    );
}

#[test]
fn letters_and_digits_beyond_ascii_are_told_apart() {
    assert_eq!(pretokenize("é٣"), vec!["é".to_string(), "٣".to_string()]);
    assert_eq!(pretokenize("éa"), vec!["éa".to_string()]);
}
