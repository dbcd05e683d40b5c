//! What a GGUF file says before its tensor data.
use crate::error::{InferError, Result};
use crate::float::F32;
use crate::gguf::{layer_name, named, span_of, tensor_range, Sizes};
use crate::gguf_blocks::{
    bytes_of, dequantize_bytes, elements_of, format_error, is_whole, type_nbytes,
};
use crate::gguf_meta::{MetaTable, MetaView};
use crate::gguf_read::{elements, entries_of, Entry, Header, TensorInfo};
use crate::llm::Attention;
use crate::text::{joined, same_text, with_number};
use vstd::prelude::*;

verus! {

/// What a file says before its tensor data: its metadata, its tensors, where
/// their data begins and how long the file is.
#[verifier::ext_equal]
pub struct Directory {
    pub metadata: Map<Seq<char>, MetaView>,
    pub tensors: Seq<Entry>,
    pub data_offset: int,
    pub total: int,
}

impl Directory {
    /// The directory entry of a name: the first of that name.
    pub open spec fn entry(self, name: Seq<char>) -> Option<Entry> {
        named(self.tensors, name)
    }

    /// The bytes of a tensor are all in the file.
    pub open spec fn has_data(self, e: Entry) -> bool {
        span_of(e, self.data_offset, self.total) is Some
    }

    /// The tensor of a name is there, with its bytes.
    pub open spec fn has_named(self, name: Seq<char>) -> bool {
        match self.entry(name) {
            Some(e) => self.has_data(e),
            None => false,
        }
    }

    /// The text under a key.
    pub open spec fn text_of(self, key: Seq<char>) -> Option<Seq<char>> {
        if self.metadata.dom().contains(key) {
            self.metadata[key].text()
        } else {
            None
        }
    }

    /// The count under a key.
    pub open spec fn count_of(self, key: Seq<char>) -> Option<int> {
        if self.metadata.dom().contains(key) {
            self.metadata[key].count()
        } else {
            None
        }
    }

    /// The count under a key, or a default.
    pub open spec fn count_or(self, key: Seq<char>, default: int) -> int {
        match self.count_of(key) {
            Some(n) => n,
            None => default,
        }
    }

    /// The number under a key, or a default.
    pub open spec fn number_or(self, key: Seq<char>, default: F32) -> F32 {
        if self.metadata.dom().contains(key) && self.metadata[key].number() is Some {
            self.metadata[key].number()->0
        } else {
            default
        }
    }

    /// The architecture that the file names.
    pub open spec fn architecture_spec(self) -> Option<Seq<char>> {
        self.text_of("general.architecture"@)
    }

    /// The architecture is one that a decoder model can be made of.
    pub open spec fn is_decoder(self) -> bool {
        self.architecture_spec() == Some("llama"@) || self.architecture_spec() == Some("qwen2"@)
    }

    /// The key of a size under the architecture of the file.
    pub open spec fn key(self, rest: Seq<char>) -> Seq<char> {
        self.architecture_spec()->0 + rest
    }

    /// The sizes that have no default are there.
    pub open spec fn has_sizes(self) -> bool {
        &&& self.count_of(self.key(".embedding_length"@)) is Some
        &&& self.count_of(self.key(".block_count"@)) is Some
        &&& self.count_of(self.key(".attention.head_count"@)) is Some
        &&& self.count_of(self.key(".feed_forward_length"@)) is Some
    }

    /// `z` holds the sizes of the file: key-value heads default to all heads, the
    /// width of a head to its share of the whole, the rotated width to that of a
    /// head, the base to 10000, the constant of the norms to 1e-5, the context to
    /// 2048.
    pub open spec fn sizes_are(self, z: Sizes) -> bool {
        &&& z.dim == self.count_of(self.key(".embedding_length"@))->0
        &&& z.n_layers == self.count_of(self.key(".block_count"@))->0
        &&& z.n_heads == self.count_of(self.key(".attention.head_count"@))->0
        &&& z.n_kv == self.count_or(self.key(".attention.head_count_kv"@), z.n_heads as int)
        &&& z.ffn == self.count_of(self.key(".feed_forward_length"@))->0
        &&& z.head_dim == self.count_or(
            self.key(".attention.key_length"@),
            z.dim as int / (if z.n_heads == 0 {
                1
            } else {
                z.n_heads as int
            }),
        )
        &&& z.rope_dim == self.count_or(self.key(".rope.dimension_count"@), z.head_dim as int)
        &&& z.rope_base == self.number_or(
            self.key(".rope.freq_base"@),
            F32 { bits: 0x461c_4000 },
        )
        &&& z.eps == self.number_or(
            self.key(".attention.layer_norm_rms_epsilon"@),
            F32 { bits: 0x3727_c5ac },
        )
        &&& z.ctx == self.count_or(self.key(".context_length"@), 2048)
    }

    /// The number of tokens: the second size of their vectors, or that of the
    /// metadata.
    pub open spec fn vocab_of(self) -> Option<int> {
        match self.entry("token_embd.weight"@) {
            Some(e) => if e.dims.len() == 2 {
                if e.dims[1] <= usize::MAX {
                    Some(e.dims[1] as int)
                } else {
                    None
                }
            } else {
                self.count_of(self.key(".vocab_size"@))
            },
            None => None,
        }
    }

    /// The vectors of the tokens are there, one for each token.
    pub open spec fn has_tokens(self, dim: int) -> bool {
        &&& self.vocab_of() is Some
        &&& self.has_named("token_embd.weight"@)
        &&& elements(self.entry("token_embd.weight"@)->0.dims) == self.vocab_of()->0 * dim
    }

    /// The bias of a layer of `n_out` outputs has one number for each, if there
    /// is one.
    pub open spec fn has_bias(self, bias: Option<Seq<char>>, n_out: int) -> bool {
        bias is Some && self.entry(bias->0) is Some ==> {
            &&& self.has_data(self.entry(bias->0)->0)
            &&& elements(self.entry(bias->0)->0.dims) == n_out
        }
    }

    /// The tensor of a name can be a layer: it has two dimensions, its numbers
    /// are in the file, and its bias has one for each output.
    pub open spec fn has_linear(self, name: Seq<char>, bias: Option<Seq<char>>) -> bool {
        match self.entry(name) {
            Some(e) => {
                &&& e.dims.len() == 2
                &&& e.dims[0] <= usize::MAX
                &&& e.dims[1] <= usize::MAX
                &&& self.has_data(e)
                &&& self.has_bias(bias, e.dims[1] as int)
            },
            None => false,
        }
    }

    /// Layer `i` is complete, and none of its feed-forward projections has a
    /// bias.
    pub open spec fn has_layer(self, i: int) -> bool {
        &&& self.entry(layer_name(i, ".ffn_gate.bias"@)) is None
        &&& self.entry(layer_name(i, ".ffn_up.bias"@)) is None
        &&& self.entry(layer_name(i, ".ffn_down.bias"@)) is None
        &&& self.has_named(layer_name(i, ".attn_norm.weight"@))
        &&& self.has_linear(
            layer_name(i, ".attn_q.weight"@),
            Some(layer_name(i, ".attn_q.bias"@)),
        )
        &&& self.has_linear(
            layer_name(i, ".attn_k.weight"@),
            Some(layer_name(i, ".attn_k.bias"@)),
        )
        &&& self.has_linear(
            layer_name(i, ".attn_v.weight"@),
            Some(layer_name(i, ".attn_v.bias"@)),
        )
        &&& self.has_linear(layer_name(i, ".attn_output.weight"@), None)
        &&& self.has_named(layer_name(i, ".ffn_norm.weight"@))
        &&& self.has_linear(layer_name(i, ".ffn_gate.weight"@), None)
        &&& self.has_linear(layer_name(i, ".ffn_up.weight"@), None)
        &&& self.has_linear(layer_name(i, ".ffn_down.weight"@), None)
    }

    /// The last norm is there, and the head: a tensor of its own without a bias,
    /// or the vectors of the tokens.
    pub open spec fn has_head(self) -> bool {
        &&& self.has_named("output_norm.weight"@)
        &&& self.entry("output.bias"@) is None
        &&& self.entry("output.weight"@) is Some ==> self.has_linear("output.weight"@, None)
    }

    /// A model can be made of the file whose sizes are `z`.
    pub open spec fn is_complete(self, z: Sizes) -> bool {
        &&& self.has_tokens(z.dim as int)
        &&& z.n_layers > 0 ==> Attention::shape_ok(z.n_heads, z.n_kv, z.head_dim, z.rope_dim)
        &&& forall|i: int| 0 <= i < z.n_layers ==> #[trigger] self.has_layer(i)
        &&& self.has_head()
    }
}

/// The numbers of a tensor, from its bytes: all of them, and no others.
pub fn tensor_numbers(t: &TensorInfo, raw: &[u8]) -> (r: Result<Vec<F32>>)
    ensures
        ({
            let n = elements(t.dims@) as int;
            match r {
                Ok(v) => {
                    &&& n <= usize::MAX
                    &&& is_whole(t.ggml_type, n)
                    &&& raw@.len() == bytes_of(t.ggml_type, n)
                    &&& v@ == elements_of(t.ggml_type, raw@, n)
                },
                Err(e) => e is Format && !(n <= usize::MAX && is_whole(t.ggml_type, n) && raw@.len()
                    == bytes_of(t.ggml_type, n)),
            }
        }),
{
    let have: usize = raw.len();
    let n: usize = t.num_elements();
    let len: usize = match type_nbytes(t.ggml_type, n) {
        Ok(len) => len,
        Err(e) => return Err(e),
    };
    assert(n < usize::MAX) by {
        assert(usize::MAX == 0xffff_ffff || usize::MAX == 0xffff_ffff_ffff_ffff);
    }
    if have != len {
        return Err(
            InferError::Format(
                joined(joined("tensor '", t.name.as_str()).as_str(), "' has wrong byte length"),
            ),
        );
    }
    Ok(dequantize_bytes(t.ggml_type, raw, n))
}

/// The metadata and the tensors of a file that is `total` bytes long.
pub struct Listing<'a> {
    pub metadata: &'a MetaTable,
    pub tensors: &'a Vec<TensorInfo>,
    pub data_offset: usize,
    pub total: usize,
}

impl Header {
    /// What the header says of a file that is `total` bytes long.
    pub fn listing(&self, total: usize) -> (l: Listing<'_>)
        requires
            self.metadata.wf(),
        ensures
            l.wf(),
            l@ == (Directory {
                metadata: self.metadata@,
                tensors: entries_of(self.tensors@),
                data_offset: self.data_offset as int,
                total: total as int,
            }),
    {
        Listing {
            metadata: &self.metadata,
            tensors: &self.tensors,
            data_offset: self.data_offset,
            total,
        }
    }
}

impl<'a> Listing<'a> {
    /// The table is in order.
    pub open spec fn wf(self) -> bool {
        self.metadata.wf()
    }

    /// What is listed.
    pub open spec fn view(self) -> Directory {
        Directory {
            metadata: self.metadata@,
            tensors: entries_of(self.tensors@),
            data_offset: self.data_offset as int,
            total: self.total as int,
        }
    }

    /// The architecture that the file names.
    pub fn architecture(&self) -> (r: Option<&'a str>)
        requires
            self.wf(),
        ensures
            match self@.architecture_spec() {
                Some(s) => r is Some && r->0@ == s,
                None => r is None,
            },
    {
        match self.metadata.get("general.architecture") {
            Some(v) => v.as_str(),
            None => None,
        }
    }

    /// The directory entry of a name.
    pub fn tensor(&self, name: &str) -> (r: Option<&'a TensorInfo>)
        ensures
            match self@.entry(name@) {
                Some(e) => r is Some && r->0@ == e,
                None => r is None,
            },
    {
        let ghost all = entries_of(self.tensors@);
        let mut i: usize = 0;
        assert(all.skip(0) =~= all);
        while i < self.tensors.len()
            invariant
                i <= self.tensors@.len(),
                all == entries_of(self.tensors@),
                named(all, name@) == named(all.skip(i as int), name@),
            decreases self.tensors@.len() - i,
        {
            let t: &'a TensorInfo = &self.tensors[i];
            assert(all.skip(i as int)[0] == t@);
            if same_text(t.name.as_str(), name) {
                return Some(t);
            }
            proof {
                assert(all.skip(i as int).drop_first() =~= all.skip(i + 1));
            }
            i = i + 1;
        }
        None
    }

    /// Where the bytes of a tensor begin and end.
    pub fn range(&self, t: &TensorInfo) -> (r: Result<(usize, usize)>)
        ensures
            match r {
                Ok(s) => span_of(t@, self.data_offset as int, self.total as int) == Some(
                    (s.0 as int, s.1 as int),
                ),
                Err(e) => e is Format && !self@.has_data(t@),
            },
    {
        tensor_range(t, self.data_offset, self.total)
    }

    /// The count under a key, if there is one.
    fn meta_opt_usize(&self, key: &str) -> (r: Option<usize>)
        requires
            self.wf(),
        ensures
            match self@.count_of(key@) {
                Some(n) => r is Some && r->0 == n,
                None => r is None,
            },
    {
        match self.metadata.get(key) {
            Some(v) => v.as_usize(),
            None => None,
        }
    }

    /// The count under a key.
    fn meta_usize(&self, key: &str) -> (r: Result<usize>)
        requires
            self.wf(),
        ensures
            match self@.count_of(key@) {
                Some(n) => r is Ok && r->Ok_0 == n,
                None => r is Err && r->Err_0 is Format,
            },
    {
        match self.meta_opt_usize(key) {
            Some(n) => Ok(n),
            None => Err(
                InferError::Format(
                    joined(joined("GGUF missing/invalid metadata '", key).as_str(), "'"),
                ),
            ),
        }
    }

    /// The number under a key, or a default.
    fn meta_f32_or(&self, key: &str, default: F32) -> (r: F32)
        requires
            self.wf(),
        ensures
            r == self@.number_or(key@, default),
    {
        match self.metadata.get(key) {
            Some(v) => match v.as_f32() {
                Some(x) => x,
                None => default,
            },
            None => default,
        }
    }

    /// The sizes of the file.
    pub fn sizes(&self, arch: &str) -> (r: Result<Sizes>)
        requires
            self.wf(),
            self@.architecture_spec() == Some(arch@),
        ensures
            match r {
                Ok(z) => self@.has_sizes() && self@.sizes_are(z),
                Err(e) => e is Format && !self@.has_sizes(),
            },
    {
        let dim: usize = match self.meta_usize(joined(arch, ".embedding_length").as_str()) {
            Ok(n) => n,
            Err(e) => return Err(e),
        };
        let n_layers: usize = match self.meta_usize(joined(arch, ".block_count").as_str()) {
            Ok(n) => n,
            Err(e) => return Err(e),
        };
        let n_heads: usize = match self.meta_usize(joined(arch, ".attention.head_count").as_str()) {
            Ok(n) => n,
            Err(e) => return Err(e),
        };
        let n_kv: usize = match self.meta_opt_usize(
            joined(arch, ".attention.head_count_kv").as_str(),
        ) {
            Some(n) => n,
            None => n_heads,
        };
        let ffn: usize = match self.meta_usize(joined(arch, ".feed_forward_length").as_str()) {
            Ok(n) => n,
            Err(e) => return Err(e),
        };
        let head_dim: usize = match self.meta_opt_usize(
            joined(arch, ".attention.key_length").as_str(),
        ) {
            Some(n) => n,
            None => dim / (if n_heads == 0 {
                1
            } else {
                n_heads
            }),
        };
        let rope_dim: usize = match self.meta_opt_usize(
            joined(arch, ".rope.dimension_count").as_str(),
        ) {
            Some(n) => n,
            None => head_dim,
        };
        let rope_base: F32 = self.meta_f32_or(
            joined(arch, ".rope.freq_base").as_str(),
            F32 { bits: 0x461c_4000 },
        );
        let eps: F32 = self.meta_f32_or(
            joined(arch, ".attention.layer_norm_rms_epsilon").as_str(),
            F32 { bits: 0x3727_c5ac },
        );
        let ctx: usize = match self.meta_opt_usize(joined(arch, ".context_length").as_str()) {
            Some(n) => n,
            None => 2048,
        };
        Ok(Sizes { dim, n_layers, n_heads, n_kv, ffn, head_dim, rope_dim, rope_base, eps, ctx })
    }

    /// That a tensor of a name is missing.
    pub(crate) fn missing(name: &str) -> (e: InferError)
        ensures
            e is Format,
    {
        InferError::Format(joined(joined("GGUF tensor '", name).as_str(), "' not found"))
    }

    fn refuse_bias(&self, name: &str) -> (r: Result<()>)
        ensures
            match r {
                Ok(_) => self@.entry(name@) is None,
                Err(e) => e is Format && self@.entry(name@) is Some,
            },
    {
        if self.tensor(name).is_some() {
            return Err(
                InferError::Format(
                    joined(
                        joined("GGUF tensor '", name).as_str(),
                        "' is not supported: biases are loaded only for attn_q/attn_k/attn_v",
                    ),
                ),
            );
        }
        Ok(())
    }

    /// The tensor of a name must be there, with its bytes.
    fn check_numbers(&self, name: &str) -> (r: Result<()>)
        ensures
            match r {
                Ok(_) => self@.has_named(name@),
                Err(e) => e is Format && !self@.has_named(name@),
            },
    {
        match self.tensor(name) {
            Some(t) => match self.range(t) {
                Ok(_) => Ok(()),
                Err(e) => Err(e),
            },
            None => Err(Listing::missing(name)),
        }
    }

    /// The tensor of a name must be a layer, with the bias of another name if
    /// there is one.
    pub(crate) fn check_linear(&self, name: &str, bias_name: Option<&str>) -> (r: Result<()>)
        ensures
            ({
                let bias = match bias_name {
                    Some(b) => Some(b@),
                    None => None,
                };
                match r {
                    Ok(_) => self@.has_linear(name@, bias),
                    Err(e) => e is Format && !self@.has_linear(name@, bias),
                }
            }),
    {
        let t: &TensorInfo = match self.tensor(name) {
            Some(t) => t,
            None => return Err(Listing::missing(name)),
        };
        if t.dims.len() != 2 {
            return Err(
                InferError::Format(joined(joined("tensor '", name).as_str(), "' is not 2-D")),
            );
        }
        if t.dims[0] > usize::MAX as u64 || t.dims[1] > usize::MAX as u64 {
            return Err(format_error("tensor byte size overflows"));
        }
        match self.range(t) {
            Ok(_) => {},
            Err(e) => return Err(e),
        }
        let bias: Option<&TensorInfo> = match bias_name {
            Some(b) => self.tensor(b),
            None => None,
        };
        if let Some(b) = bias {
            match self.range(b) {
                Ok(_) => {},
                Err(e) => return Err(e),
            }
            if b.num_elements() != t.dims[1] as usize {
                return Err(
                    InferError::Format(
                        joined(joined("bias for '", name).as_str(), "' has wrong length"),
                    ),
                );
            }
        }
        Ok(())
    }

    /// Layer `i` must be complete, and the heads must be allowed.
    fn check_layer(&self, i: usize, z: &Sizes) -> (r: Result<()>)
        ensures
            ({
                let shape = Attention::shape_ok(z.n_heads, z.n_kv, z.head_dim, z.rope_dim);
                match r {
                    Ok(_) => shape && self@.has_layer(i as int),
                    Err(e) => (e is Format || e is DimMismatch) && !(self@.has_layer(i as int)
                        && shape),
                }
            }),
    {
        match self.refuse_bias(layer_tensor(i, ".ffn_gate.bias").as_str()) {
            Ok(_) => {},
            Err(e) => return Err(e),
        }
        match self.refuse_bias(layer_tensor(i, ".ffn_up.bias").as_str()) {
            Ok(_) => {},
            Err(e) => return Err(e),
        }
        match self.refuse_bias(layer_tensor(i, ".ffn_down.bias").as_str()) {
            Ok(_) => {},
            Err(e) => return Err(e),
        }
        match self.check_numbers(layer_tensor(i, ".attn_norm.weight").as_str()) {
            Ok(_) => {},
            Err(e) => return Err(e),
        }
        match self.check_linear(
            layer_tensor(i, ".attn_q.weight").as_str(),
            Some(layer_tensor(i, ".attn_q.bias").as_str()),
        ) {
            Ok(_) => {},
            Err(e) => return Err(e),
        }
        match self.check_linear(
            layer_tensor(i, ".attn_k.weight").as_str(),
            Some(layer_tensor(i, ".attn_k.bias").as_str()),
        ) {
            Ok(_) => {},
            Err(e) => return Err(e),
        }
        match self.check_linear(
            layer_tensor(i, ".attn_v.weight").as_str(),
            Some(layer_tensor(i, ".attn_v.bias").as_str()),
        ) {
            Ok(_) => {},
            Err(e) => return Err(e),
        }
        match self.check_linear(layer_tensor(i, ".attn_output.weight").as_str(), None) {
            Ok(_) => {},
            Err(e) => return Err(e),
        }
        match Attention::check_shape(z.n_heads, z.n_kv, z.head_dim, z.rope_dim) {
            Ok(_) => {},
            Err(e) => return Err(e),
        }
        match self.check_numbers(layer_tensor(i, ".ffn_norm.weight").as_str()) {
            Ok(_) => {},
            Err(e) => return Err(e),
        }
        match self.check_linear(layer_tensor(i, ".ffn_gate.weight").as_str(), None) {
            Ok(_) => {},
            Err(e) => return Err(e),
        }
        match self.check_linear(layer_tensor(i, ".ffn_up.weight").as_str(), None) {
            Ok(_) => {},
            Err(e) => return Err(e),
        }
        self.check_linear(layer_tensor(i, ".ffn_down.weight").as_str(), None)
    }

    /// The number of tokens, if their vectors are there.
    fn check_tokens(&self, arch: &str, dim: usize) -> (r: Result<usize>)
        requires
            self.wf(),
            self@.architecture_spec() == Some(arch@),
        ensures
            match r {
                Ok(vocab) => self@.has_tokens(dim as int) && self@.vocab_of() == Some(vocab as int),
                Err(e) => e is Format && !self@.has_tokens(dim as int),
            },
    {
        let t: &TensorInfo = match self.tensor("token_embd.weight") {
            Some(t) => t,
            None => return Err(format_error("GGUF missing token_embd.weight")),
        };
        let vocab: usize = if t.dims.len() == 2 {
            if t.dims[1] > usize::MAX as u64 {
                return Err(format_error("tensor byte size overflows"));
            }
            t.dims[1] as usize
        } else {
            match self.meta_usize(joined(arch, ".vocab_size").as_str()) {
                Ok(n) => n,
                Err(e) => return Err(e),
            }
        };
        match self.range(t) {
            Ok(_) => {},
            Err(e) => return Err(e),
        }
        let held: usize = t.num_elements();
        let fits: bool = match vocab.checked_mul(dim) {
            Some(n) => n == held,
            None => false,
        };
        if !fits {
            return Err(format_error("token_embd.weight size does not match vocab × dim"));
        }
        Ok(vocab)
    }

    /// Checks that a model can be made of the file whose sizes are `z`, and gives
    /// the number of tokens.
    pub fn check_model(&self, arch: &str, z: &Sizes) -> (r: Result<usize>)
        requires
            self.wf(),
            self@.architecture_spec() == Some(arch@),
        ensures
            match r {
                Ok(vocab) => self@.is_complete(*z) && self@.vocab_of() == Some(vocab as int),
                Err(e) => (e is Format || e is DimMismatch) && !self@.is_complete(*z),
            },
    {
        let vocab: usize = match self.check_tokens(arch, z.dim) {
            Ok(n) => n,
            Err(e) => return Err(e),
        };
        let mut i: usize = 0;
        while i < z.n_layers
            invariant
                i <= z.n_layers,
                i > 0 ==> Attention::shape_ok(z.n_heads, z.n_kv, z.head_dim, z.rope_dim),
                forall|k: int| 0 <= k < i ==> #[trigger] self@.has_layer(k),
            decreases z.n_layers - i,
        {
            match self.check_layer(i, z) {
                Ok(_) => {},
                Err(e) => return Err(e),
            }
            i = i + 1;
        }
        match self.check_numbers("output_norm.weight") {
            Ok(_) => {},
            Err(e) => return Err(e),
        }
        match self.refuse_bias("output.bias") {
            Ok(_) => {},
            Err(e) => return Err(e),
        }
        if self.tensor("output.weight").is_some() {
            match self.check_linear("output.weight", None) {
                Ok(_) => {},
                Err(e) => return Err(e),
            }
        }
        Ok(vocab)
    }
}

/// The name of a tensor of layer `i`.
pub(crate) fn layer_tensor(i: usize, rest: &str) -> (s: String)
    ensures
        s@ == layer_name(i as int, rest@),
{
    with_number("blk.", i, rest)
}

} // verus!
