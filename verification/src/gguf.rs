//! GGUF files: what their tensors hold, and decoder models in them.
use crate::decoder::{LlamaConfig, LlamaModel};
use crate::error::{InferError, Result};
use crate::float::F32;
use crate::gguf_blocks::{
    bytes_of, dequantize_bytes, elements_of, format_error, is_whole, type_nbytes,
};
pub use crate::gguf_listing::Listing;
use crate::gguf_listing::Directory;
pub use crate::gguf_llama::LlamaLoader;
pub use crate::gguf_meta::MetaValue;
use crate::gguf_meta::{map_of, MetaTable};
pub use crate::gguf_read::TensorInfo;
use crate::gguf_read::{
    elements, entries_of, parse_header, rd_header, Entry, Header, HeaderView, Reply,
};
pub use crate::half::f16_to_f32;
use crate::index::{cell, lemma_split};
use crate::layer::Linear;
use crate::llm::{LlamaBlock, RopeType};
use crate::ops::transpose;
use crate::quant::{QKind, QWeight};
use crate::tensor::{zeros, Tensor};
use crate::text::{dec, joined, with_number};
use vstd::prelude::*;
use vstd::slice::slice_subrange;

verus! {

/// A GGUF file in memory.
pub struct Gguf {
    pub version: u32,
    pub metadata: MetaTable,
    pub tensors: Vec<TensorInfo>,
    /// Where the tensor data begins.
    pub data_offset: usize,
    /// The whole file.
    pub bytes: Vec<u8>,
}

impl TensorInfo {
    /// The number of elements, or the largest number if that is larger.
    pub fn num_elements(&self) -> (n: usize)
        ensures
            n == (if elements(self.dims@) <= usize::MAX {
                elements(self.dims@) as int
            } else {
                usize::MAX as int
            }),
    {
        let mut acc: usize = 1;
        let mut i: usize = 0;
        while i < self.dims.len()
            invariant
                i <= self.dims@.len(),
                acc == (if elements(self.dims@.subrange(0, i as int)) <= usize::MAX {
                    elements(self.dims@.subrange(0, i as int)) as int
                } else {
                    usize::MAX as int
                }),
            decreases self.dims@.len() - i,
        {
            let ghost before = elements(self.dims@.subrange(0, i as int));
            let size: u64 = self.dims[i];
            let ghost d = size as nat;
            proof {
                let next = self.dims@.subrange(0, i + 1);
                assert(next.drop_last() =~= self.dims@.subrange(0, i as int));
                assert(elements(next) == before * d);
            }
            let ghost prior = acc as int;
            acc = if acc == 0 {
                0
            } else if size > usize::MAX as u64 {
                usize::MAX
            } else {
                match acc.checked_mul(size as usize) {
                    Some(v) => v,
                    None => usize::MAX,
                }
            };
            proof {
                if prior == 0 {
                    assert(before * d == 0) by (nonlinear_arith)
                        requires
                            before == 0,
                    ;
                } else if before > usize::MAX {
                    if d == 0 {
                        assert(before * d == 0) by (nonlinear_arith)
                            requires
                                d == 0,
                        ;
                        assert(prior * d == 0) by (nonlinear_arith)
                            requires
                                d == 0,
                        ;
                    } else {
                        assert(before * d > usize::MAX) by (nonlinear_arith)
                            requires
                                before > usize::MAX,
                                d >= 1,
                        ;
                        assert(prior * d >= prior) by (nonlinear_arith)
                            requires
                                d >= 1,
                                prior >= 0,
                        ;
                    }
                } else if d > usize::MAX {
                    assert(before * d > usize::MAX) by (nonlinear_arith)
                        requires
                            before >= 1,
                            d > usize::MAX,
                    ;
                }
            }
            i = i + 1;
        }
        assert(self.dims@.subrange(0, self.dims@.len() as int) =~= self.dims@);
        acc
    }
}

/// The bytes of a tensor in a file of `total` bytes: where they begin and end.
pub open spec fn span_of(e: Entry, data_offset: int, total: int) -> Option<(int, int)> {
    let n = elements(e.dims) as int;
    let start = data_offset + e.offset;
    let end = start + bytes_of(e.ggml_type, n);
    if n <= usize::MAX && is_whole(e.ggml_type, n) && end <= total {
        Some((start, end))
    } else {
        None
    }
}

/// Where the bytes of a tensor begin and end in a file of `total` bytes.
pub fn tensor_range(t: &TensorInfo, data_offset: usize, total: usize) -> (r: Result<(usize, usize)>)
    ensures
        match r {
            Ok(s) => span_of(t@, data_offset as int, total as int) == Some(
                (s.0 as int, s.1 as int),
            ),
            Err(e) => e is Format && span_of(t@, data_offset as int, total as int) is None,
        },
{
    let n: usize = t.num_elements();
    let len: usize = match type_nbytes(t.ggml_type, n) {
        Ok(len) => len,
        Err(e) => return Err(e),
    };
    if t.offset > usize::MAX as u64 {
        return Err(format_error("tensor offset overflow"));
    }
    let start: usize = match data_offset.checked_add(t.offset as usize) {
        Some(s) => s,
        None => return Err(format_error("tensor offset overflow")),
    };
    let end: usize = match start.checked_add(len) {
        Some(e) => e,
        None => return Err(format_error("tensor length overflow")),
    };
    if end > total {
        return Err(
            InferError::Format(
                joined(joined("tensor '", t.name.as_str()).as_str(), "' data runs past EOF"),
            ),
        );
    }
    Ok((start, end))
}

/// The first entry of a name.
pub open spec fn named(ts: Seq<Entry>, name: Seq<char>) -> Option<Entry>
    decreases ts.len(),
{
    if ts.len() == 0 {
        None
    } else if ts[0].name == name {
        Some(ts[0])
    } else {
        named(ts.drop_first(), name)
    }
}

/// The matrix `data` of `rows` rows and `cols` columns, with both exchanged.
pub open spec fn transposed(data: Seq<F32>, rows: int, cols: int) -> Seq<F32> {
    Seq::new((cols * rows) as nat, |k: int| data[cell(k % rows, k / rows, cols)])
}

/// A row-major matrix with rows and columns exchanged.
pub fn transpose_2d(data: Vec<F32>, rows: usize, cols: usize) -> (out: Vec<F32>)
    requires
        data@.len() == rows * cols,
    ensures
        out@ == transposed(data@, rows as int, cols as int),
{
    let ghost held = data@;
    let n: usize = data.len();
    let m: Tensor = match Tensor::matrix(rows, cols, data) {
        Ok(m) => m,
        Err(_) => return Vec::new(),
    };
    match transpose(&m) {
        Ok(t) => {
            proof {
                let r = rows as int;
                let c = cols as int;
                assert(c * r == r * c) by (nonlinear_arith);
                assert forall|k: int| 0 <= k < c * r implies #[trigger] t.data@[k]
                    == transposed(held, r, c)[k] by {
                    lemma_split(k, c, r);
                    assert(t.at_spec(k / r, k % r) == m.at_spec(k % r, k / r));
                }
                assert(t.data@ =~= transposed(held, r, c));
            }
            t.data
        },
        Err(_) => Vec::new(),
    }
}

/// The numbers of the tensor of a name as a quantized matrix of `rows` rows.
pub fn quantized_rows(name: &str, f: &[F32], rows: usize, kind: QKind) -> (r: Result<QWeight>)
    ensures
        if rows != 0 && f@.len() as int % rows as int == 0 {
            r is Ok && r->Ok_0.quantizes(f@, rows as int, f@.len() as int / rows as int, kind)
        } else {
            r is Err && r->Err_0 is Format
        },
{
    if rows == 0 || f.len() % rows != 0 {
        return Err(
            InferError::Format(
                with_number(
                    joined(joined("tensor '", name).as_str(), "' length ").as_str(),
                    f.len(),
                    with_number(" not divisible by rows ", rows, "").as_str(),
                ),
            ),
        );
    }
    let cols: usize = f.len() / rows;
    proof {
        let n = f@.len() as int;
        let k = rows as int;
        assert(n == k * (n / k)) by (nonlinear_arith)
            requires
                k > 0,
                n % k == 0,
        ;
    }
    Ok(QWeight::from_f32(f, rows, cols, kind))
}

/// The weight of a layer: `w` of `n_in` rows and `n_out` columns, quantized if
/// `prec` says so.
pub open spec fn carries(
    l: Linear,
    w: Seq<F32>,
    n_in: int,
    n_out: int,
    bias: Seq<F32>,
    prec: Option<QKind>,
) -> bool {
    &&& l.fits()
    &&& l.in_f == n_in
    &&& l.out_f == n_out
    &&& l.bias.data@ == bias
    &&& match prec {
        Some(kind) => l.quant is Some && l.quant->0.quantizes(w, n_in, n_out, kind),
        None => l.quant is None && l.weight.data@ == w,
    }
}

/// A layer of the given weight, quantized if `prec` says so.
pub(crate) fn linear_with(
    w: Vec<F32>,
    n_in: usize,
    n_out: usize,
    bias: Vec<F32>,
    prec: Option<QKind>,
) -> (r: Result<Linear>)
    requires
        w@.len() == n_in * n_out,
        bias@.len() == n_out,
    ensures
        r is Ok,
        carries(r->Ok_0, w@, n_in as int, n_out as int, bias@, prec),
{
    let total: usize = w.len();
    match prec {
        Some(kind) => Linear::quantized(
            n_in,
            n_out,
            QWeight::from_f32(w.as_slice(), n_in, n_out, kind),
            bias,
        ),
        None => Linear::new(n_in, n_out, w, bias),
    }
}

impl Gguf {
    /// The table is in order, and the tensor data begins in the file.
    pub open spec fn wf(self) -> bool {
        &&& self.metadata.wf()
        &&& self.data_offset <= self.bytes@.len()
    }

    /// The file is `bytes`, whose header says `h`.
    pub open spec fn is_file(self, h: HeaderView, bytes: Seq<u8>) -> bool {
        &&& self.wf()
        &&& self.bytes@ == bytes
        &&& self.version == h.version
        &&& self.metadata@ == map_of(h.pairs)
        &&& entries_of(self.tensors@) == h.tensors
        &&& self.data_offset == h.data_offset
    }

    /// What the file says before its tensor data.
    pub open spec fn dir(self) -> Directory {
        Directory {
            metadata: self.metadata@,
            tensors: entries_of(self.tensors@),
            data_offset: self.data_offset as int,
            total: self.bytes@.len() as int,
        }
    }

    /// The directory entry of a name: the first of that name.
    #[verifier::inline]
    pub open spec fn entry(self, name: Seq<char>) -> Option<Entry> {
        self.dir().entry(name)
    }

    /// The numbers of a tensor, where its bytes are all in the file.
    pub open spec fn data_of(self, e: Entry) -> Option<Seq<F32>> {
        match span_of(e, self.data_offset as int, self.bytes@.len() as int) {
            Some((start, end)) => Some(
                elements_of(e.ggml_type, self.bytes@.subrange(start, end), elements(e.dims) as int),
            ),
            None => None,
        }
    }

    /// The numbers of the tensor of a name.
    pub open spec fn data_named(self, name: Seq<char>) -> Option<Seq<F32>> {
        match self.entry(name) {
            Some(e) => self.data_of(e),
            None => None,
        }
    }

    /// Reads a file. Fails where the header is cut off or is none, and where the
    /// tensor data would begin behind the end.
    pub fn parse(bytes: Vec<u8>) -> (r: Result<Gguf>)
        ensures
            match rd_header(bytes@) {
                Reply::Done(h, _) => if h.data_offset <= bytes@.len() {
                    r is Ok && r->Ok_0.is_file(h, bytes@)
                } else {
                    r is Err && r->Err_0 is Format
                },
                _ => r is Err && r->Err_0 is Format,
            },
    {
        let header: Header = match parse_header(bytes.as_slice()) {
            Ok(h) => h,
            Err(s) => return Err(InferError::Format(s.text())),
        };
        if header.data_offset > bytes.len() {
            return Err(format_error("GGUF tensor-data section begins past EOF"));
        }
        Ok(
            Gguf {
                version: header.version,
                metadata: header.metadata,
                tensors: header.tensors,
                data_offset: header.data_offset,
                bytes,
            },
        )
    }

    /// The architecture that the file names.
    #[verifier::inline]
    pub open spec fn architecture_spec(self) -> Option<Seq<char>> {
        self.dir().architecture_spec()
    }

    /// The text under a key.
    #[verifier::inline]
    pub open spec fn text_of(self, key: Seq<char>) -> Option<Seq<char>> {
        self.dir().text_of(key)
    }

    /// The count under a key.
    #[verifier::inline]
    pub open spec fn count_of(self, key: Seq<char>) -> Option<int> {
        self.dir().count_of(key)
    }

    /// The count under a key, or a default.
    #[verifier::inline]
    pub open spec fn count_or(self, key: Seq<char>, default: int) -> int {
        self.dir().count_or(key, default)
    }

    /// The number under a key, or a default.
    #[verifier::inline]
    pub open spec fn number_or(self, key: Seq<char>, default: F32) -> F32 {
        self.dir().number_or(key, default)
    }

    /// What the file says before its tensor data.
    pub fn listing(&self) -> (l: Listing<'_>)
        requires
            self.wf(),
        ensures
            l.wf(),
            l@ == self.dir(),
    {
        Listing {
            metadata: &self.metadata,
            tensors: &self.tensors,
            data_offset: self.data_offset,
            total: self.bytes.len(),
        }
    }

    /// The architecture that the file names.
    pub fn architecture(&self) -> (r: Option<&str>)
        requires
            self.wf(),
        ensures
            match self.architecture_spec() {
                Some(s) => r is Some && r->0@ == s,
                None => r is None,
            },
    {
        self.listing().architecture()
    }

    /// The metadata value of a key.
    pub fn meta(&self, key: &str) -> (r: Option<&MetaValue>)
        requires
            self.wf(),
        ensures
            r is Some <==> self.metadata@.dom().contains(key@),
            r is Some ==> r->0@ == self.metadata@[key@],
    {
        self.metadata.get(key)
    }

    /// The directory entry of a name.
    pub fn tensor(&self, name: &str) -> (r: Option<&TensorInfo>)
        ensures
            match self.entry(name@) {
                Some(e) => r is Some && r->0@ == e,
                None => r is None,
            },
    {
        let l: Listing<'_> = Listing {
            metadata: &self.metadata,
            tensors: &self.tensors,
            data_offset: self.data_offset,
            total: self.bytes.len(),
        };
        l.tensor(name)
    }

    /// The numbers of a tensor, in the order in which they are stored.
    pub fn dequantize(&self, t: &TensorInfo) -> (r: Result<Vec<F32>>)
        ensures
            match self.data_of(t@) {
                Some(d) => r is Ok && r->Ok_0@ == d,
                None => r is Err && r->Err_0 is Format,
            },
    {
        let (start, end) = match tensor_range(t, self.data_offset, self.bytes.len()) {
            Ok(s) => s,
            Err(e) => return Err(e),
        };
        let n: usize = t.num_elements();
        Ok(dequantize_bytes(t.ggml_type, slice_subrange(self.bytes.as_slice(), start, end), n))
    }

    /// The numbers of the tensor of a name.
    fn dequant_named(&self, name: &str) -> (r: Result<Vec<F32>>)
        ensures
            match self.data_named(name@) {
                Some(d) => r is Ok && r->Ok_0@ == d,
                None => r is Err && r->Err_0 is Format,
            },
    {
        match self.tensor(name) {
            Some(t) => self.dequantize(t),
            None => Err(Listing::missing(name)),
        }
    }

    /// The tensor of a name as a quantized matrix of `rows` rows.
    pub fn quantized_weight(&self, name: &str, rows: usize, kind: QKind) -> (r: Result<QWeight>)
        ensures
            match self.data_named(name@) {
                Some(d) => if rows != 0 && d.len() as int % rows as int == 0 {
                    r is Ok && r->Ok_0.quantizes(
                        d,
                        rows as int,
                        d.len() as int / rows as int,
                        kind,
                    )
                } else {
                    r is Err && r->Err_0 is Format
                },
                None => r is Err && r->Err_0 is Format,
            },
    {
        let f: Vec<F32> = match self.dequant_named(name) {
            Ok(f) => f,
            Err(e) => return Err(e),
        };
        quantized_rows(name, f.as_slice(), rows, kind)
    }

    // -----------------------------------------------------------------------
    // Layers
    // -----------------------------------------------------------------------

    /// The bias of a layer of `n_out` outputs: the tensor of that name, or zeros
    /// if there is none.
    pub open spec fn bias_of(self, bias: Option<Seq<char>>, n_out: int) -> Option<Seq<F32>> {
        if bias is Some && self.entry(bias->0) is Some {
            match self.data_named(bias->0) {
                Some(d) => if d.len() == n_out {
                    Some(d)
                } else {
                    None
                },
                None => None,
            }
        } else {
            Some(Seq::new(n_out as nat, |i: int| F32 { bits: 0 }))
        }
    }

    /// The tensor of a name can be a layer: it has two dimensions, its numbers
    /// are in the file, and its bias has one for each output.
    #[verifier::inline]
    pub open spec fn has_linear(self, name: Seq<char>, bias: Option<Seq<char>>) -> bool {
        self.dir().has_linear(name, bias)
    }

    /// `l` is the layer of the tensor of a name: rows and columns exchanged.
    pub open spec fn is_linear(
        self,
        name: Seq<char>,
        bias: Option<Seq<char>>,
        prec: Option<QKind>,
        l: Linear,
    ) -> bool {
        let e = self.entry(name)->0;
        carries(
            l,
            transposed(self.data_of(e)->0, e.dims[1] as int, e.dims[0] as int),
            e.dims[0] as int,
            e.dims[1] as int,
            self.bias_of(bias, e.dims[1] as int)->0,
            prec,
        )
    }

    /// The tensor of a name as a layer, with the bias of another name if there
    /// is one.
    pub fn linear_from(&self, name: &str, bias_name: Option<&str>, prec: Option<QKind>) -> (r: Result<
        Linear,
    >)
        ensures
            ({
                let bias = match bias_name {
                    Some(b) => Some(b@),
                    None => None,
                };
                match r {
                    Ok(l) => self.has_linear(name@, bias) && self.is_linear(name@, bias, prec, l),
                    Err(e) => e is Format && !self.has_linear(name@, bias),
                }
            }),
    {
        let t: &TensorInfo = match self.tensor(name) {
            Some(t) => t,
            None => return Err(Listing::missing(name)),
        };
        if t.dims.len() != 2 {
            return Err(
                InferError::Format(joined(joined("tensor '", name).as_str(), "' is not 2-D")),
            );
        }
        if t.dims[0] > usize::MAX as u64 || t.dims[1] > usize::MAX as u64 {
            return Err(format_error("tensor byte size overflows"));
        }
        let n_in: usize = t.dims[0] as usize;
        let n_out: usize = t.dims[1] as usize;
        let flat: Vec<F32> = match self.dequantize(t) {
            Ok(f) => f,
            Err(e) => return Err(e),
        };
        proof {
            let d = t.dims@;
            assert(d.drop_last().drop_last() =~= Seq::<u64>::empty());
            assert(elements(d.drop_last().drop_last()) == 1);
            assert(elements(d.drop_last()) == 1 * d[0] as nat);
            assert(elements(d) == elements(d.drop_last()) * d[1] as nat);
            assert(n_in * n_out == n_out * n_in) by (nonlinear_arith);
        }
        let w: Vec<F32> = transpose_2d(flat, n_out, n_in);
        let bias_tensor: Option<&TensorInfo> = match bias_name {
            Some(b) => self.tensor(b),
            None => None,
        };
        let bias: Vec<F32> = match bias_tensor {
            Some(bt) => match self.dequantize(bt) {
                Ok(b) => b,
                Err(e) => return Err(e),
            },
            None => zeros(n_out),
        };
        if bias.len() != n_out {
            return Err(
                InferError::Format(
                    joined(joined("bias for '", name).as_str(), "' has wrong length"),
                ),
            );
        }
        proof {
            if bias_tensor is None {
                assert(bias@ =~= Seq::new(n_out as nat, |i: int| F32 { bits: 0 }));
            }
        }
        linear_with(w, n_in, n_out, bias, prec)
    }
}

// ---------------------------------------------------------------------------
// Decoder models
// ---------------------------------------------------------------------------

/// The name of a tensor of layer `i`.
pub open spec fn layer_name(i: int, rest: Seq<char>) -> Seq<char> {
    "blk."@ + dec(i as nat) + rest
}

/// Sizes and constants that the metadata gives a model.
pub struct Sizes {
    pub dim: usize,
    pub n_layers: usize,
    pub n_heads: usize,
    pub n_kv: usize,
    pub ffn: usize,
    pub head_dim: usize,
    pub rope_dim: usize,
    pub rope_base: F32,
    pub eps: F32,
    pub ctx: usize,
}

impl Gguf {
    /// The architecture is one that a decoder model can be made of.
    #[verifier::inline]
    pub open spec fn is_decoder(self) -> bool {
        self.dir().is_decoder()
    }

    /// The key of a size under the architecture of the file.
    #[verifier::inline]
    pub open spec fn key(self, rest: Seq<char>) -> Seq<char> {
        self.dir().key(rest)
    }

    /// The sizes that have no default are there.
    #[verifier::inline]
    pub open spec fn has_sizes(self) -> bool {
        self.dir().has_sizes()
    }

    /// `z` holds the sizes of the file.
    #[verifier::inline]
    pub open spec fn sizes_are(self, z: Sizes) -> bool {
        self.dir().sizes_are(z)
    }

    /// The number of tokens.
    #[verifier::inline]
    pub open spec fn vocab_of(self) -> Option<int> {
        self.dir().vocab_of()
    }

    /// The vectors of the tokens are there, one for each token.
    #[verifier::inline]
    pub open spec fn has_tokens(self, dim: int) -> bool {
        self.dir().has_tokens(dim)
    }

    /// Layer `i` is complete.
    #[verifier::inline]
    pub open spec fn has_layer(self, i: int) -> bool {
        self.dir().has_layer(i)
    }

    /// `b` is layer `i`.
    pub open spec fn is_layer(self, i: int, z: Sizes, prec: Option<QKind>, b: LlamaBlock) -> bool {
        &&& b.attn_norm.weight@ == self.data_named(layer_name(i, ".attn_norm.weight"@))->0
        &&& b.attn_norm.eps == z.eps
        &&& self.is_linear(
            layer_name(i, ".attn_q.weight"@),
            Some(layer_name(i, ".attn_q.bias"@)),
            prec,
            b.attn.wq,
        )
        &&& self.is_linear(
            layer_name(i, ".attn_k.weight"@),
            Some(layer_name(i, ".attn_k.bias"@)),
            prec,
            b.attn.wk,
        )
        &&& self.is_linear(
            layer_name(i, ".attn_v.weight"@),
            Some(layer_name(i, ".attn_v.bias"@)),
            prec,
            b.attn.wv,
        )
        &&& self.is_linear(layer_name(i, ".attn_output.weight"@), None, prec, b.attn.wo)
        &&& b.attn.n_heads == z.n_heads
        &&& b.attn.n_kv_heads == z.n_kv
        &&& b.attn.head_dim == z.head_dim
        &&& b.attn.rope_dim == z.rope_dim
        &&& b.attn.rope_base == z.rope_base
        &&& b.attn.rope_type == RopeType::Norm
        &&& b.ffn_norm.weight@ == self.data_named(layer_name(i, ".ffn_norm.weight"@))->0
        &&& b.ffn_norm.eps == z.eps
        &&& self.is_linear(layer_name(i, ".ffn_gate.weight"@), None, prec, b.ffn.gate)
        &&& self.is_linear(layer_name(i, ".ffn_up.weight"@), None, prec, b.ffn.up)
        &&& self.is_linear(layer_name(i, ".ffn_down.weight"@), None, prec, b.ffn.down)
    }

    /// The last norm is there, and the head.
    #[verifier::inline]
    pub open spec fn has_head(self) -> bool {
        self.dir().has_head()
    }

    /// `l` is the head.
    pub open spec fn is_head(self, z: Sizes, prec: Option<QKind>, l: Linear) -> bool {
        if self.entry("output.weight"@) is Some {
            self.is_linear("output.weight"@, None, prec, l)
        } else {
            let vocab = self.vocab_of()->0;
            carries(
                l,
                transposed(self.data_named("token_embd.weight"@)->0, vocab, z.dim as int),
                z.dim as int,
                vocab,
                Seq::new(vocab as nat, |i: int| F32 { bits: 0 }),
                prec,
            )
        }
    }

    /// A model can be made of the file whose sizes are `z`.
    #[verifier::inline]
    pub open spec fn is_complete(self, z: Sizes) -> bool {
        self.dir().is_complete(z)
    }

    /// `m` is the model of the file whose sizes are `z`.
    pub open spec fn is_model(self, z: Sizes, prec: Option<QKind>, m: LlamaModel) -> bool {
        &&& m.cfg == LlamaConfig {
            vocab_size: self.vocab_of()->0 as usize,
            model_dim: z.dim,
            n_layers: z.n_layers,
            n_heads: z.n_heads,
            n_kv_heads: z.n_kv,
            head_dim: z.head_dim,
            ffn_dim: z.ffn,
            rope_dim: z.rope_dim,
            rope_base: z.rope_base,
            rope_type: RopeType::Norm,
            norm_eps: z.eps,
            context_len: z.ctx,
        }
        &&& m.tok_emb@ == self.data_named("token_embd.weight"@)->0
        &&& m.blocks@.len() == z.n_layers
        &&& forall|i: int|
            0 <= i < z.n_layers ==> self.is_layer(i, z, prec, #[trigger] m.blocks@[i])
        &&& m.final_norm.weight@ == self.data_named("output_norm.weight"@)->0
        &&& m.final_norm.eps == z.eps
        &&& self.is_head(z, prec, m.lm_head)
    }

    /// Makes a decoder model of the file, its weights quantized.
    pub fn load_llama(&self, kind: QKind) -> (r: Result<LlamaModel>)
        requires
            self.wf(),
        ensures
            match r {
                Ok(m) => self.is_decoder() && self.has_sizes() && exists|z: Sizes|
                    {
                        &&& self.sizes_are(z)
                        &&& self.is_complete(z)
                        &&& #[trigger] self.is_model(z, Some(kind), m)
                    },
                Err(e) => (e is Format || e is DimMismatch) && (self.is_decoder()
                    && self.has_sizes() ==> exists|z: Sizes|
                    self.sizes_are(z) && !#[trigger] self.is_complete(z)),
            },
    {
        self.load_llama_prec(Some(kind))
    }

    /// Makes a decoder model of the file, its weights quantized or in full
    /// precision.
    pub fn load_llama_prec(&self, prec: Option<QKind>) -> (r: Result<LlamaModel>)
        requires
            self.wf(),
        ensures
            match r {
                Ok(m) => self.is_decoder() && self.has_sizes() && exists|z: Sizes|
                    {
                        &&& self.sizes_are(z)
                        &&& self.is_complete(z)
                        &&& #[trigger] self.is_model(z, prec, m)
                    },
                Err(e) => (e is Format || e is DimMismatch) && (self.is_decoder()
                    && self.has_sizes() ==> exists|z: Sizes|
                    self.sizes_are(z) && !#[trigger] self.is_complete(z)),
            },
    {
        let mut loader: LlamaLoader<'_> = match LlamaLoader::new(self.listing(), prec) {
            Ok(l) => l,
            Err(e) => return Err(e),
        };
        loop
            invariant
                loader.follows(*self),
                loader.prec == prec,
            decreases loader.missing(),
        {
            match loader.wanted() {
                Some((start, end)) => {
                    loader.feed(slice_subrange(self.bytes.as_slice(), start, end));
                },
                None => return loader.finish(),
            }
        }
    }
}

} // verus!
