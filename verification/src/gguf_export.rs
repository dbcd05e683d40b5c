//! Decoder models as GGUF files.
use crate::decoder::LlamaModel;
use crate::error::{InferError, Result};
use crate::float::F32;
use crate::gguf::{layer_name, Gguf};
use crate::gguf_blocks::{
    format_error, is_whole, GGML_F16, GGML_F32, GGML_Q4_0, GGML_Q4_1, GGML_Q4_K, GGML_Q5_K,
    GGML_Q6_K, GGML_Q8_0, GGML_Q8_1, QK, QK_K,
};
use crate::gguf_encode::{encode_tensor, encoded};
use crate::gguf_meta::{pairs_of, Item, MetaValue, MetaView};
use crate::gguf_write::{file_bytes, GgufBuilder, Piece};
use crate::index::{cell, lemma_split};
use crate::layer::Linear;
use crate::llm::LlamaBlock;
use crate::text::{joined, lower, same_text, to_lower, with_number};
use vstd::prelude::*;

verus! {

/// The element type that weights are written in.
#[derive(Clone, Copy, Debug, PartialEq, Eq, Structural)]
pub enum GgufQuant {
    F32,
    F16,
    Q8_0,
    Q8_1,
    Q4_0,
    Q4_1,
    Q4K,
    Q5K,
    Q6K,
}

/// The type of a name in lower case.
pub open spec fn quant_named(s: Seq<char>) -> Option<GgufQuant> {
    if s == "f32"@ || s == "none"@ {
        Some(GgufQuant::F32)
    } else if s == "f16"@ || s == "fp16"@ {
        Some(GgufQuant::F16)
    } else if s == "q8_0"@ || s == "q8"@ {
        Some(GgufQuant::Q8_0)
    } else if s == "q8_1"@ {
        Some(GgufQuant::Q8_1)
    } else if s == "q4_0"@ || s == "q4"@ {
        Some(GgufQuant::Q4_0)
    } else if s == "q4_1"@ {
        Some(GgufQuant::Q4_1)
    } else if s == "q4_k"@ || s == "q4k"@ {
        Some(GgufQuant::Q4K)
    } else if s == "q5_k"@ || s == "q5k"@ {
        Some(GgufQuant::Q5K)
    } else if s == "q6_k"@ || s == "q6k"@ {
        Some(GgufQuant::Q6K)
    } else {
        None
    }
}

impl GgufQuant {
    /// The number of the element type.
    pub open spec fn type_spec(self) -> u32 {
        match self {
            GgufQuant::F32 => GGML_F32,
            GgufQuant::F16 => GGML_F16,
            GgufQuant::Q8_0 => GGML_Q8_0,
            GgufQuant::Q8_1 => GGML_Q8_1,
            GgufQuant::Q4_0 => GGML_Q4_0,
            GgufQuant::Q4_1 => GGML_Q4_1,
            GgufQuant::Q4K => GGML_Q4_K,
            GgufQuant::Q5K => GGML_Q5_K,
            GgufQuant::Q6K => GGML_Q6_K,
        }
    }

    /// The number under which a file of this type is known.
    pub open spec fn file_spec(self) -> u32 {
        match self {
            GgufQuant::F32 => 0,
            GgufQuant::F16 => 1,
            GgufQuant::Q4_0 => 2,
            GgufQuant::Q4_1 => 3,
            GgufQuant::Q8_0 => 7,
            GgufQuant::Q8_1 => 9,
            GgufQuant::Q4K => 15,
            GgufQuant::Q5K => 17,
            GgufQuant::Q6K => 18,
        }
    }

    /// Whether the blocks are super-blocks.
    pub open spec fn super_spec(self) -> bool {
        self is Q4K || self is Q5K || self is Q6K
    }

    /// The type of a name, in capitals or not.
    pub fn from_str(s: &str) -> (r: Option<Self>)
        ensures
            r == quant_named(lower(s@)),
    {
        let t: String = to_lower(s);
        let n: &str = t.as_str();
        if same_text(n, "f32") || same_text(n, "none") {
            Some(GgufQuant::F32)
        } else if same_text(n, "f16") || same_text(n, "fp16") {
            Some(GgufQuant::F16)
        } else if same_text(n, "q8_0") || same_text(n, "q8") {
            Some(GgufQuant::Q8_0)
        } else if same_text(n, "q8_1") {
            Some(GgufQuant::Q8_1)
        } else if same_text(n, "q4_0") || same_text(n, "q4") {
            Some(GgufQuant::Q4_0)
        } else if same_text(n, "q4_1") {
            Some(GgufQuant::Q4_1)
        } else if same_text(n, "q4_k") || same_text(n, "q4k") {
            Some(GgufQuant::Q4K)
        } else if same_text(n, "q5_k") || same_text(n, "q5k") {
            Some(GgufQuant::Q5K)
        } else if same_text(n, "q6_k") || same_text(n, "q6k") {
            Some(GgufQuant::Q6K)
        } else {
            None
        }
    }

    /// The number of the element type.
    pub fn ggml_type(self) -> (t: u32)
        ensures
            t == self.type_spec(),
    {
        match self {
            GgufQuant::F32 => GGML_F32,
            GgufQuant::F16 => GGML_F16,
            GgufQuant::Q8_0 => GGML_Q8_0,
            GgufQuant::Q8_1 => GGML_Q8_1,
            GgufQuant::Q4_0 => GGML_Q4_0,
            GgufQuant::Q4_1 => GGML_Q4_1,
            GgufQuant::Q4K => GGML_Q4_K,
            GgufQuant::Q5K => GGML_Q5_K,
            GgufQuant::Q6K => GGML_Q6_K,
        }
    }

    /// The number under which a file of this type is known.
    pub fn file_type(self) -> (t: u32)
        ensures
            t == self.file_spec(),
    {
        match self {
            GgufQuant::F32 => 0,
            GgufQuant::F16 => 1,
            GgufQuant::Q4_0 => 2,
            GgufQuant::Q4_1 => 3,
            GgufQuant::Q8_0 => 7,
            GgufQuant::Q8_1 => 9,
            GgufQuant::Q4K => 15,
            GgufQuant::Q5K => 17,
            GgufQuant::Q6K => 18,
        }
    }

    /// Whether the blocks are super-blocks.
    pub fn is_kquant(self) -> (b: bool)
        ensures
            b == self.super_spec(),
    {
        match self {
            GgufQuant::Q4K => true,
            GgufQuant::Q5K => true,
            GgufQuant::Q6K => true,
            _ => false,
        }
    }
}

/// The element type of a tensor, and whether it is not the one asked for. A
/// vector is in full precision. A matrix is of the type asked for if its rows
/// make whole blocks, else in half precision.
pub open spec fn planned(is_2d: bool, axis: int, quant: GgufQuant) -> (u32, bool) {
    if !is_2d || quant is F32 {
        (GGML_F32, false)
    } else if quant is F16 {
        (GGML_F16, false)
    } else if axis % (if quant.super_spec() {
        256
    } else {
        32int
    }) == 0 {
        (quant.type_spec(), false)
    } else {
        (GGML_F16, true)
    }
}

/// The element type of a tensor, and whether it is not the one asked for.
pub fn plan_tensor_type(is_2d: bool, block_axis: usize, quant: GgufQuant) -> (r: (u32, bool))
    ensures
        r == planned(is_2d, block_axis as int, quant),
{
    if !is_2d {
        return (GGML_F32, false);
    }
    match quant {
        GgufQuant::F32 => (GGML_F32, false),
        GgufQuant::F16 => (GGML_F16, false),
        _ => {
            let size: usize = if quant.is_kquant() {
                QK_K
            } else {
                QK
            };
            if block_axis % size == 0 {
                (quant.ggml_type(), false)
            } else {
                (GGML_F16, true)
            }
        },
    }
}

// ---------------------------------------------------------------------------
// What is written
// ---------------------------------------------------------------------------

/// A matrix of rows of `axis` numbers.
pub open spec fn matrix_piece(
    name: Seq<char>,
    raw: Seq<F32>,
    axis: int,
    dims: Seq<u64>,
    quant: GgufQuant,
) -> Piece {
    let ty = planned(true, axis, quant).0;
    Piece { name, dims, ggml_type: ty, data: encoded(ty, raw) }
}

/// A vector, in full precision.
pub open spec fn vector_piece(name: Seq<char>, v: Seq<F32>) -> Piece {
    Piece { name, dims: seq![v.len() as u64], ggml_type: GGML_F32, data: encoded(GGML_F32, v) }
}

/// The weights of a layer, a row for each output.
pub open spec fn rows_by_output(l: Linear) -> Seq<F32> {
    Seq::new(
        (l.out_f * l.in_f) as nat,
        |k: int| l.weight_at(k % l.in_f as int, k / l.in_f as int),
    )
}

/// The weight of a layer.
pub open spec fn weight_piece(name: Seq<char>, l: Linear, quant: GgufQuant) -> Piece {
    matrix_piece(
        name,
        rows_by_output(l),
        l.in_f as int,
        seq![l.in_f as u64, l.out_f as u64],
        quant,
    )
}

/// The bias of a layer, if the source has one of that name.
pub open spec fn bias_pieces(name: Seq<char>, l: Linear, source: Gguf) -> Seq<Piece> {
    if source.entry(name) is Some {
        seq![vector_piece(name, l.bias.data@)]
    } else {
        Seq::empty()
    }
}

/// The tensors of layer `i`.
#[verifier::opaque]
pub open spec fn layer_pieces(b: LlamaBlock, i: int, source: Gguf, quant: GgufQuant) -> Seq<Piece> {
    Seq::empty() + seq![vector_piece(layer_name(i, ".attn_norm.weight"@), b.attn_norm.weight@)]
        + seq![weight_piece(layer_name(i, ".attn_q.weight"@), b.attn.wq, quant)]
        + bias_pieces(layer_name(i, ".attn_q.bias"@), b.attn.wq, source)
        + seq![weight_piece(layer_name(i, ".attn_k.weight"@), b.attn.wk, quant)]
        + bias_pieces(layer_name(i, ".attn_k.bias"@), b.attn.wk, source)
        + seq![weight_piece(layer_name(i, ".attn_v.weight"@), b.attn.wv, quant)]
        + bias_pieces(layer_name(i, ".attn_v.bias"@), b.attn.wv, source)
        + seq![weight_piece(layer_name(i, ".attn_output.weight"@), b.attn.wo, quant)]
        + seq![vector_piece(layer_name(i, ".ffn_norm.weight"@), b.ffn_norm.weight@)]
        + seq![weight_piece(layer_name(i, ".ffn_gate.weight"@), b.ffn.gate, quant)]
        + seq![weight_piece(layer_name(i, ".ffn_up.weight"@), b.ffn.up, quant)]
        + seq![weight_piece(layer_name(i, ".ffn_down.weight"@), b.ffn.down, quant)]
}

/// The tensors of the first `n` layers.
pub open spec fn layers_pieces(m: LlamaModel, n: nat, source: Gguf, quant: GgufQuant) -> Seq<Piece>
    decreases n,
{
    if n == 0 {
        Seq::empty()
    } else {
        layers_pieces(m, (n - 1) as nat, source, quant) + layer_pieces(
            m.blocks@[n - 1],
            n - 1,
            source,
            quant,
        )
    }
}

/// The vectors of the tokens.
pub open spec fn tokens_piece(m: LlamaModel, quant: GgufQuant) -> Piece {
    matrix_piece(
        "token_embd.weight"@,
        m.tok_emb@,
        m.cfg.model_dim as int,
        seq![m.cfg.model_dim as u64, m.cfg.vocab_size as u64],
        quant,
    )
}

/// The tensors of a model: token vectors, layers, last norm, and the head if the
/// source has one of its own.
pub open spec fn model_pieces(m: LlamaModel, source: Gguf, quant: GgufQuant) -> Seq<Piece> {
    seq![tokens_piece(m, quant)] + layers_pieces(m, m.blocks@.len(), source, quant) + seq![
        vector_piece("output_norm.weight"@, m.final_norm.weight@),
    ] + (if source.entry("output.weight"@) is Some {
        seq![weight_piece("output.weight"@, m.lm_head, quant)]
    } else {
        Seq::empty()
    })
}

/// A key that names what is in the source file and may not hold of the new one.
pub open spec fn is_renewed(key: Seq<char>) -> bool {
    key == "general.file_type"@ || key == "general.quantization_version"@
}

/// The entries but those renewed, in order.
pub open spec fn kept(s: Seq<(Seq<char>, MetaView)>) -> Seq<(Seq<char>, MetaView)>
    decreases s.len(),
{
    if s.len() == 0 {
        Seq::empty()
    } else if is_renewed(s.last().0) {
        kept(s.drop_last())
    } else {
        kept(s.drop_last()).push(s.last())
    }
}

/// The metadata of the source, with the file type and the version renewed.
pub open spec fn model_pairs(source: Gguf, quant: GgufQuant) -> Seq<(Seq<char>, MetaView)> {
    kept(pairs_of(source.metadata.entries@)).push(
        ("general.file_type"@, MetaView::One(Item::U32(quant.file_spec()))),
    ).push(("general.quantization_version"@, MetaView::One(Item::U32(2))))
}

/// All layers of a model are such.
pub open spec fn layers_fit(m: LlamaModel) -> bool {
    &&& m.lm_head.fits()
    &&& forall|i: int|
        0 <= i < m.blocks@.len() ==> {
            let b = #[trigger] m.blocks@[i];
            &&& b.attn.wq.fits() && b.attn.wk.fits() && b.attn.wv.fits() && b.attn.wo.fits()
            &&& b.ffn.gate.fits() && b.ffn.up.fits() && b.ffn.down.fits()
        }
}

// ---------------------------------------------------------------------------
// Writing
// ---------------------------------------------------------------------------

/// Adds a matrix of rows of `axis` numbers.
fn add_matrix(
    b: &mut GgufBuilder,
    name: &str,
    raw: &[F32],
    axis: usize,
    other: usize,
    quant: GgufQuant,
) -> (r: Result<()>)
    ensures
        match r {
            Ok(_) => {
                &&& is_whole(planned(true, axis as int, quant).0, raw@.len() as int)
                &&& final(b).pairs() == old(b).pairs()
                &&& final(b).pieces() == old(b).pieces().push(
                    matrix_piece(
                        name@,
                        raw@,
                        axis as int,
                        seq![axis as u64, other as u64],
                        quant,
                    ),
                )
            },
            Err(e) => e is Format && !is_whole(
                planned(true, axis as int, quant).0,
                raw@.len() as int,
            ),
        },
{
    let (ty, _) = plan_tensor_type(true, axis, quant);
    let bytes: Vec<u8> = match encode_tensor(raw, ty) {
        Ok(v) => v,
        Err(e) => return Err(e),
    };
    let mut dims: Vec<u64> = Vec::new();
    dims.push(axis as u64);
    dims.push(other as u64);
    assert(dims@ =~= seq![axis as u64, other as u64]);
    b.tensor(name, dims.as_slice(), ty, bytes);
    Ok(())
}

/// Adds a vector.
fn add_vector(b: &mut GgufBuilder, name: &str, v: &[F32])
    ensures
        final(b).pairs() == old(b).pairs(),
        final(b).pieces() == old(b).pieces() + seq![vector_piece(name@, v@)],
{
    let mut dims: Vec<u64> = Vec::new();
    dims.push(v.len() as u64);
    assert(dims@ =~= seq![v@.len() as u64]);
    match encode_tensor(v, GGML_F32) {
        Ok(bytes) => {
            b.tensor(name, dims.as_slice(), GGML_F32, bytes);
        },
        Err(_) => {},
    }
    assert(b.pieces() =~= old(b).pieces() + seq![vector_piece(name@, v@)]);
}

/// The weights of a layer, a row for each output.
fn rows_exec(l: &Linear) -> (v: Vec<F32>)
    requires
        l.fits(),
    ensures
        v@ == rows_by_output(*l),
{
    let flat: Vec<F32> = l.weight_f32();
    let v: Vec<F32> = crate::gguf::transpose_2d(flat, l.in_f, l.out_f);
    proof {
        let r = l.in_f as int;
        let c = l.out_f as int;
        assert forall|k: int| 0 <= k < c * r implies #[trigger] v@[k] == rows_by_output(*l)[k] by {
            lemma_split(k, c, r);
            assert(flat@[cell(k % r, k / r, c)] == l.weight_at(k % r, k / r));
        }
        assert(v@ =~= rows_by_output(*l));
    }
    v
}

/// Whole rows make whole blocks.
proof fn lemma_planned_whole(axis: int, other: int, quant: GgufQuant)
    requires
        axis >= 0,
        other >= 0,
    ensures
        is_whole(planned(true, axis, quant).0, other * axis),
{
    if axis % 256 == 0 {
        let q = axis / 256;
        assert(other * (256 * q) == 256 * (other * q)) by (nonlinear_arith);
        assert(other * axis == 256 * (other * q));
    }
    if axis % 32 == 0 {
        let q = axis / 32;
        assert(other * (32 * q) == 32 * (other * q)) by (nonlinear_arith);
        assert(other * axis == 32 * (other * q));
    }
}

/// Adds the weight of a layer.
fn add_weight(b: &mut GgufBuilder, name: &str, l: &Linear, quant: GgufQuant)
    requires
        l.fits(),
    ensures
        final(b).pairs() == old(b).pairs(),
        final(b).pieces() == old(b).pieces() + seq![weight_piece(name@, *l, quant)],
{
    let raw: Vec<F32> = rows_exec(l);
    proof {
        lemma_planned_whole(l.in_f as int, l.out_f as int, quant);
        assert(l.out_f * l.in_f == l.in_f * l.out_f) by (nonlinear_arith);
        assert(l.out_f * l.in_f >= 0) by (nonlinear_arith);
    }
    match add_matrix(b, name, raw.as_slice(), l.in_f, l.out_f, quant) {
        Ok(_) => {},
        Err(_) => {},
    }
    assert(b.pieces() =~= old(b).pieces() + seq![weight_piece(name@, *l, quant)]);
}

/// Adds the bias of a layer, if the source has one of that name.
fn add_bias_of(b: &mut GgufBuilder, name: &str, l: &Linear, source: &Gguf)
    ensures
        final(b).pairs() == old(b).pairs(),
        final(b).pieces() == old(b).pieces() + bias_pieces(name@, *l, *source),
{
    if source.tensor(name).is_some() {
        add_vector(b, name, l.bias.data.as_slice());
    }
    assert(b.pieces() =~= old(b).pieces() + bias_pieces(name@, *l, *source));
}

/// Adds layer `i`.
fn add_layer(b: &mut GgufBuilder, blk: &LlamaBlock, i: usize, source: &Gguf, quant: GgufQuant)
    requires
        blk.attn.wq.fits(),
        blk.attn.wk.fits(),
        blk.attn.wv.fits(),
        blk.attn.wo.fits(),
        blk.ffn.gate.fits(),
        blk.ffn.up.fits(),
        blk.ffn.down.fits(),
    ensures
        final(b).pairs() == old(b).pairs(),
        final(b).pieces() == old(b).pieces() + layer_pieces(*blk, i as int, *source, quant),
{
    reveal(layer_pieces);
    let ghost start = b.pieces();
    let ghost blk_of = *blk;
    let ghost n = i as int;
    let ghost src = *source;
    let ghost mut acc: Seq<Piece> = Seq::empty();
    assert(start + acc =~= start);
    add_vector(b, with_number("blk.", i, ".attn_norm.weight").as_str(), blk.attn_norm.weight.as_slice());
    proof {
        let part = seq![vector_piece(layer_name(n, ".attn_norm.weight"@), blk_of.attn_norm.weight@)];
        lemma_chain(start, acc, part);
        acc = acc + part;
    }
    add_weight(b, with_number("blk.", i, ".attn_q.weight").as_str(), &blk.attn.wq, quant);
    proof {
        let part = seq![weight_piece(layer_name(n, ".attn_q.weight"@), blk_of.attn.wq, quant)];
        lemma_chain(start, acc, part);
        acc = acc + part;
    }
    add_bias_of(b, with_number("blk.", i, ".attn_q.bias").as_str(), &blk.attn.wq, source);
    proof {
        let part = bias_pieces(layer_name(n, ".attn_q.bias"@), blk_of.attn.wq, src);
        lemma_chain(start, acc, part);
        acc = acc + part;
    }
    add_weight(b, with_number("blk.", i, ".attn_k.weight").as_str(), &blk.attn.wk, quant);
    proof {
        let part = seq![weight_piece(layer_name(n, ".attn_k.weight"@), blk_of.attn.wk, quant)];
        lemma_chain(start, acc, part);
        acc = acc + part;
    }
    add_bias_of(b, with_number("blk.", i, ".attn_k.bias").as_str(), &blk.attn.wk, source);
    proof {
        let part = bias_pieces(layer_name(n, ".attn_k.bias"@), blk_of.attn.wk, src);
        lemma_chain(start, acc, part);
        acc = acc + part;
    }
    add_weight(b, with_number("blk.", i, ".attn_v.weight").as_str(), &blk.attn.wv, quant);
    proof {
        let part = seq![weight_piece(layer_name(n, ".attn_v.weight"@), blk_of.attn.wv, quant)];
        lemma_chain(start, acc, part);
        acc = acc + part;
    }
    add_bias_of(b, with_number("blk.", i, ".attn_v.bias").as_str(), &blk.attn.wv, source);
    proof {
        let part = bias_pieces(layer_name(n, ".attn_v.bias"@), blk_of.attn.wv, src);
        lemma_chain(start, acc, part);
        acc = acc + part;
    }
    add_weight(b, with_number("blk.", i, ".attn_output.weight").as_str(), &blk.attn.wo, quant);
    proof {
        let part = seq![weight_piece(layer_name(n, ".attn_output.weight"@), blk_of.attn.wo, quant)];
        lemma_chain(start, acc, part);
        acc = acc + part;
    }
    add_vector(b, with_number("blk.", i, ".ffn_norm.weight").as_str(), blk.ffn_norm.weight.as_slice());
    proof {
        let part = seq![vector_piece(layer_name(n, ".ffn_norm.weight"@), blk_of.ffn_norm.weight@)];
        lemma_chain(start, acc, part);
        acc = acc + part;
    }
    add_weight(b, with_number("blk.", i, ".ffn_gate.weight").as_str(), &blk.ffn.gate, quant);
    proof {
        let part = seq![weight_piece(layer_name(n, ".ffn_gate.weight"@), blk_of.ffn.gate, quant)];
        lemma_chain(start, acc, part);
        acc = acc + part;
    }
    add_weight(b, with_number("blk.", i, ".ffn_up.weight").as_str(), &blk.ffn.up, quant);
    proof {
        let part = seq![weight_piece(layer_name(n, ".ffn_up.weight"@), blk_of.ffn.up, quant)];
        lemma_chain(start, acc, part);
        acc = acc + part;
    }
    add_weight(b, with_number("blk.", i, ".ffn_down.weight").as_str(), &blk.ffn.down, quant);
    proof {
        let part = seq![weight_piece(layer_name(n, ".ffn_down.weight"@), blk_of.ffn.down, quant)];
        lemma_chain(start, acc, part);
        acc = acc + part;
    }
}

proof fn lemma_chain(a: Seq<Piece>, b: Seq<Piece>, c: Seq<Piece>)
    ensures
        (a + b) + c == a + (b + c),
{
    assert((a + b) + c =~= a + (b + c));
}

/// Adds the metadata of the source.
fn add_metadata(b: &mut GgufBuilder, source: &Gguf, quant: GgufQuant)
    requires
        old(b).pairs().len() == 0,
    ensures
        final(b).pairs() == model_pairs(*source, quant),
        final(b).pieces() == old(b).pieces(),
{
    let ghost all = pairs_of(source.metadata.entries@);
    let mut i: usize = 0;
    assert(b.pairs() =~= kept(all.subrange(0, 0)));
    while i < source.metadata.entries.len()
        invariant
            i <= source.metadata.entries@.len(),
            all == pairs_of(source.metadata.entries@),
            b.pairs() == kept(all.subrange(0, i as int)),
            b.pieces() == old(b).pieces(),
        decreases source.metadata.entries@.len() - i,
    {
        let key: &str = source.metadata.entries[i].0.as_str();
        proof {
            let next = all.subrange(0, i + 1);
            assert(next.drop_last() =~= all.subrange(0, i as int));
            assert(next.last() == all[i as int]);
        }
        if !same_text(key, "general.file_type") && !same_text(key, "general.quantization_version") {
            b.meta(key, source.metadata.entries[i].1.duplicate());
        }
        i = i + 1;
    }
    assert(all.subrange(0, all.len() as int) =~= all);
    b.meta("general.file_type", MetaValue::U32(quant.file_type()));
    b.meta("general.quantization_version", MetaValue::U32(2));
}

/// Adds all layers.
fn add_layers(b: &mut GgufBuilder, model: &LlamaModel, source: &Gguf, quant: GgufQuant)
    requires
        layers_fit(*model),
    ensures
        final(b).pairs() == old(b).pairs(),
        final(b).pieces() == old(b).pieces() + layers_pieces(
            *model,
            model.blocks@.len(),
            *source,
            quant,
        ),
{
    let ghost first = b.pieces();
    assert(first + layers_pieces(*model, 0, *source, quant) =~= first);
    let mut i: usize = 0;
    while i < model.blocks.len()
        invariant
            i <= model.blocks@.len(),
            layers_fit(*model),
            b.pairs() == old(b).pairs(),
            b.pieces() == first + layers_pieces(*model, i as nat, *source, quant),
        decreases model.blocks@.len() - i,
    {
        assert(model.blocks@[i as int].attn.wq.fits());
        add_layer(b, &model.blocks[i], i, source, quant);
        proof {
            lemma_chain(
                first,
                layers_pieces(*model, i as nat, *source, quant),
                layer_pieces(model.blocks@[i as int], i as int, *source, quant),
            );
        }
        i = i + 1;
    }
}

/// A model as a file, with the metadata of the file it came from.
pub fn llama_gguf_bytes(model: &LlamaModel, source: &Gguf, quant: GgufQuant) -> (r: Result<Vec<u8>>)
    requires
        source.wf(),
        layers_fit(*model),
    ensures
        ({
            let ty = planned(true, model.cfg.model_dim as int, quant).0;
            let file = file_bytes(
                model_pairs(*source, quant),
                model_pieces(*model, *source, quant),
            );
            let allowed = source.is_decoder() && is_whole(ty, model.tok_emb@.len() as int);
            match r {
                Ok(v) => allowed && v@ == file,
                Err(e) => e is Format && (!allowed || file.len() > usize::MAX),
            }
        }),
{
    let arch: &str = match source.architecture() {
        Some(a) => a,
        None => return Err(format_error("source GGUF missing general.architecture")),
    };
    if !same_text(arch, "llama") && !same_text(arch, "qwen2") {
        return Err(
            InferError::Format(
                joined(
                    joined(
                        "GGUF export supports llama/qwen2 only (source architecture = '",
                        arch,
                    ).as_str(),
                    "')",
                ),
            ),
        );
    }
    let mut b: GgufBuilder = GgufBuilder::new();
    add_metadata(&mut b, source, quant);
    match add_matrix(
        &mut b,
        "token_embd.weight",
        model.tok_emb.as_slice(),
        model.cfg.model_dim,
        model.cfg.vocab_size,
        quant,
    ) {
        Ok(_) => {},
        Err(e) => return Err(e),
    }
    add_layers(&mut b, model, source, quant);
    add_vector(&mut b, "output_norm.weight", model.final_norm.weight.as_slice());
    if source.tensor("output.weight").is_some() {
        add_weight(&mut b, "output.weight", &model.lm_head, quant);
    }
    assert(b.pieces() =~= model_pieces(*model, *source, quant));
    match b.build() {
        Some(v) => Ok(v),
        None => Err(format_error("GGUF file size overflows")),
    }
}

} // verus!
