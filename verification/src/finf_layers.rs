//! The layers of a FINF file.
use crate::activation::{tags_round_trip, Activation};
use crate::bytes::{get_u32, le32, lemma_le32, lemma_stands_split, stands_at};
use crate::error::{InferError, Result};
use crate::finf_weights::{
    cut_off, held, lemma_values, matrices_are_read_back, push_size, push_weights, put_size,
    put_weights, rd_matrix, rd_vector, read_matrix, read_vector, vector_held,
    vectors_are_read_back, LoadedWeights, QPrec, WeightView,
};
use crate::float::F32;
use crate::layer::{ActivationLayer, Embedding, Flatten, Layer, LayerNorm, Linear};
use crate::model::AnyLayer;
use crate::text::with_number;
use crate::transformer::TransformerBlock;
use vstd::prelude::*;

verus! {

pub const TAG_LINEAR: u8 = 0;

pub const TAG_ACTIVATION: u8 = 1;

pub const TAG_EMBEDDING: u8 = 2;

pub const TAG_LAYERNORM: u8 = 3;

pub const TAG_TRANSFORMER_BLOCK: u8 = 4;

pub const TAG_FLATTEN: u8 = 5;

/// A linear layer as read.
#[verifier::ext_equal]
pub struct LinearView {
    pub rows: int,
    pub cols: int,
    pub weight: WeightView,
    pub bias: Seq<F32>,
}

/// A layer norm as read.
#[verifier::ext_equal]
pub struct NormView {
    pub gamma: Seq<F32>,
    pub beta: Seq<F32>,
}

/// A transformer block as read.
#[verifier::ext_equal]
pub struct BlockView {
    pub context: int,
    pub heads: int,
    pub width: int,
    pub hidden: int,
    pub ln1: NormView,
    pub q: LinearView,
    pub k: LinearView,
    pub v: LinearView,
    pub o: LinearView,
    pub ln2: NormView,
    pub f1: LinearView,
    pub f2: LinearView,
}

/// An embedding as read.
#[verifier::ext_equal]
pub struct TableView {
    pub vocab: int,
    pub max_seq: int,
    pub width: int,
    pub tokens: Seq<F32>,
    pub places: Seq<F32>,
}

/// A layer as read.
#[verifier::ext_equal]
pub enum LayerView {
    Linear(LinearView),
    Activation(Activation),
    Embedding(TableView),
    LayerNorm(int, NormView),
    Block(BlockView),
    Flatten,
}

/// What reading layers gives: the layers and the place behind them, bytes that
/// are no layers, or a layer whose parts do not fit together.
#[verifier::ext_equal]
pub enum LayersReply {
    Done(Seq<LayerView>, int),
    Broken,
    Refused,
}

// ---------------------------------------------------------------------------
// Reading
// ---------------------------------------------------------------------------

/// A matrix and its bias at `p`.
#[verifier::opaque]
pub open spec fn rd_linear(b: Seq<u8>, p: int, rows: int, cols: int, v5: bool) -> Option<(
    LinearView,
    int,
)> {
    match rd_matrix(b, p, rows, cols, v5) {
        Some((weight, q)) => match rd_vector(b, q, cols, v5) {
            Some((bias, e)) => Some((LinearView { rows, cols, weight, bias }, e)),
            None => None,
        },
        None => None,
    }
}

/// The two vectors of a layer norm at `p`.
#[verifier::opaque]
pub open spec fn rd_norm(b: Seq<u8>, p: int, n: int, v5: bool) -> Option<(NormView, int)> {
    match rd_vector(b, p, n, v5) {
        Some((gamma, q)) => match rd_vector(b, q, n, v5) {
            Some((beta, e)) => Some((NormView { gamma, beta }, e)),
            None => None,
        },
        None => None,
    }
}

/// The two tables of an embedding at `p`.
pub open spec fn rd_tables(b: Seq<u8>, p: int, vocab: int, max_seq: int, width: int, v5: bool) -> Option<
    (TableView, int),
> {
    match rd_matrix(b, p, vocab, width, v5) {
        Some((t, q)) => match rd_matrix(b, q, max_seq, width, v5) {
            Some((s, e)) => Some(
                (
                    TableView {
                        vocab,
                        max_seq,
                        width,
                        tokens: t.numbers(vocab, width),
                        places: s.numbers(max_seq, width),
                    },
                    e,
                ),
            ),
            None => None,
        },
        None => None,
    }
}

/// The four projections of an attention at `p`.
pub open spec fn rd_heads(b: Seq<u8>, p: int, c: int, v5: bool) -> Option<(
    (LinearView, LinearView, LinearView, LinearView),
    int,
)> {
    match rd_linear(b, p, c, c, v5) {
        Some((q, p1)) => match rd_linear(b, p1, c, c, v5) {
            Some((k, p2)) => match rd_linear(b, p2, c, c, v5) {
                Some((v, p3)) => match rd_linear(b, p3, c, c, v5) {
                    Some((o, e)) => Some(((q, k, v, o), e)),
                    None => None,
                },
                None => None,
            },
            None => None,
        },
        None => None,
    }
}

/// The two layers of a feed-forward part at `p`.
pub open spec fn rd_feed(b: Seq<u8>, p: int, c: int, h: int, v5: bool) -> Option<(
    (LinearView, LinearView),
    int,
)> {
    match rd_linear(b, p, c, h, v5) {
        Some((f1, q)) => match rd_linear(b, q, h, c, v5) {
            Some((f2, e)) => Some(((f1, f2), e)),
            None => None,
        },
        None => None,
    }
}

/// The parts of a transformer block at `p`.
pub open spec fn rd_block(
    b: Seq<u8>,
    p: int,
    context: int,
    heads: int,
    c: int,
    h: int,
    v5: bool,
) -> Option<(BlockView, int)> {
    match rd_norm(b, p, c, v5) {
        Some((ln1, p1)) => match rd_heads(b, p1, c, v5) {
            Some((a, p2)) => match rd_norm(b, p2, c, v5) {
                Some((ln2, p3)) => match rd_feed(b, p3, c, h, v5) {
                    Some((f, e)) => Some(
                        (
                            BlockView {
                                context,
                                heads,
                                width: c,
                                hidden: h,
                                ln1,
                                q: a.0,
                                k: a.1,
                                v: a.2,
                                o: a.3,
                                ln2,
                                f1: f.0,
                                f2: f.1,
                            },
                            e,
                        ),
                    ),
                    None => None,
                },
                None => None,
            },
            None => None,
        },
        None => None,
    }
}

/// A layer at `p`.
pub open spec fn rd_layer(b: Seq<u8>, p: int, v5: bool) -> Option<(LayerView, int)> {
    if p >= b.len() {
        None
    } else if b[p] == TAG_LINEAR {
        if p + 9 > b.len() {
            None
        } else {
            match rd_linear(b, p + 9, le32(b, p + 1), le32(b, p + 5), v5) {
                Some((l, e)) => Some((LayerView::Linear(l), e)),
                None => None,
            }
        }
    } else if b[p] == TAG_ACTIVATION {
        if p + 2 > b.len() {
            None
        } else {
            match Activation::of_tag(b[p + 1]) {
                Some(a) => Some((LayerView::Activation(a), p + 2)),
                None => None,
            }
        }
    } else if b[p] == TAG_EMBEDDING {
        if p + 13 > b.len() {
            None
        } else {
            match rd_tables(b, p + 13, le32(b, p + 1), le32(b, p + 5), le32(b, p + 9), v5) {
                Some((t, e)) => Some((LayerView::Embedding(t), e)),
                None => None,
            }
        }
    } else if b[p] == TAG_LAYERNORM {
        if p + 5 > b.len() {
            None
        } else {
            match rd_norm(b, p + 5, le32(b, p + 1), v5) {
                Some((n, e)) => Some((LayerView::LayerNorm(le32(b, p + 1), n), e)),
                None => None,
            }
        }
    } else if b[p] == TAG_TRANSFORMER_BLOCK {
        if p + 17 > b.len() {
            None
        } else {
            match rd_block(
                b,
                p + 17,
                le32(b, p + 1),
                le32(b, p + 5),
                le32(b, p + 9),
                le32(b, p + 13),
                v5,
            ) {
                Some((t, e)) => Some((LayerView::Block(t), e)),
                None => None,
            }
        }
    } else if b[p] == TAG_FLATTEN {
        Some((LayerView::Flatten, p + 1))
    } else {
        None
    }
}

impl LinearView {
    /// The weights fill the matrix.
    pub open spec fn builds(self) -> bool {
        match self.weight {
            WeightView::Plain(s) => s.len() == self.rows * self.cols,
            WeightView::Packed(_, _, _) => true,
        }
    }
}

impl LayerView {
    /// The parts fit together.
    pub open spec fn builds(self) -> bool {
        match self {
            LayerView::Linear(l) => l.builds(),
            LayerView::Embedding(t) => t.tokens.len() == t.vocab * t.width && t.places.len()
                == t.max_seq * t.width,
            LayerView::Block(t) => {
                &&& t.context > 0
                &&& t.heads > 0
                &&& t.width % t.heads == 0
                &&& t.q.builds() && t.k.builds() && t.v.builds() && t.o.builds()
                &&& t.f1.builds() && t.f2.builds()
            },
            _ => true,
        }
    }
}

/// `n` layers at `p`.
pub open spec fn rd_layers(b: Seq<u8>, p: int, v5: bool, n: nat) -> LayersReply
    decreases n,
{
    if n == 0 {
        LayersReply::Done(Seq::empty(), p)
    } else {
        match rd_layers(b, p, v5, (n - 1) as nat) {
            LayersReply::Done(s, q) => match rd_layer(b, q, v5) {
                Some((l, e)) => if l.builds() {
                    LayersReply::Done(s.push(l), e)
                } else {
                    LayersReply::Refused
                },
                None => LayersReply::Broken,
            },
            other => other,
        }
    }
}

/// A linear layer is as a view says.
pub open spec fn linear_shows(l: Linear, v: LinearView) -> bool {
    &&& l.fits()
    &&& l.in_f == v.rows
    &&& l.out_f == v.cols
    &&& l.bias.data@ == v.bias
    &&& match (l.quant, v.weight) {
        (None, WeightView::Plain(s)) => l.weight.data@ == s,
        (Some(w), WeightView::Packed(kind, s, q)) => w.kind == kind && w.scales@ == s && w.q@ == q,
        _ => false,
    }
}

/// A layer norm is as a view says.
pub open spec fn norm_shows(l: LayerNorm, n: int, v: NormView) -> bool {
    l.wf() && l.width == n && l.gamma.data@ == v.gamma && l.beta.data@ == v.beta
}

/// A block is as a view says.
pub open spec fn block_shows(t: TransformerBlock, v: BlockView) -> bool {
    &&& t.fits()
    &&& t.context == v.context
    &&& t.heads == v.heads
    &&& t.width == v.width
    &&& t.ffn1.out_f == v.hidden
    &&& norm_shows(t.ln1, v.width, v.ln1)
    &&& linear_shows(t.q_proj, v.q)
    &&& linear_shows(t.k_proj, v.k)
    &&& linear_shows(t.v_proj, v.v)
    &&& linear_shows(t.out_proj, v.o)
    &&& norm_shows(t.ln2, v.width, v.ln2)
    &&& linear_shows(t.ffn1, v.f1)
    &&& linear_shows(t.ffn2, v.f2)
}

/// An embedding is as a view says.
pub open spec fn table_shows(t: Embedding, v: TableView) -> bool {
    &&& t.wf()
    &&& t.vocab == v.vocab
    &&& t.max_seq == v.max_seq
    &&& t.width == v.width
    &&& t.token_weight.data@ == v.tokens
    &&& t.pos_weight.data@ == v.places
}

/// A layer is as a view says.
pub open spec fn layer_shows(l: AnyLayer, v: LayerView) -> bool {
    match (l, v) {
        (AnyLayer::Linear(l), LayerView::Linear(v)) => linear_shows(l, v),
        (AnyLayer::Activation(l), LayerView::Activation(a)) => l.kind == a,
        (AnyLayer::Embedding(l), LayerView::Embedding(v)) => table_shows(l, v),
        (AnyLayer::LayerNorm(l), LayerView::LayerNorm(n, v)) => norm_shows(l, n, v),
        (AnyLayer::Transformer(l), LayerView::Block(v)) => block_shows(l, v),
        (AnyLayer::Flatten(_), LayerView::Flatten) => true,
        _ => false,
    }
}

/// A matrix and its bias, as read.
struct ReadLinear {
    rows: usize,
    cols: usize,
    w: LoadedWeights,
    bias: Vec<F32>,
}

impl ReadLinear {
    spec fn shows(self, v: LinearView) -> bool {
        &&& self.rows == v.rows
        &&& self.cols == v.cols
        &&& self.rows * self.cols <= usize::MAX
        &&& self.w.shows(v.weight, v.rows, v.cols)
        &&& self.bias@ == v.bias
        &&& self.bias@.len() == v.cols
    }
}

/// A linear layer of what was read; it stays packed if it is.
fn linear_from_loaded(l: ReadLinear, v: Ghost<LinearView>) -> (r: Result<Linear>)
    requires
        l.shows(v@),
    ensures
        match r {
            Ok(x) => v@.builds() && linear_shows(x, v@),
            Err(e) => !v@.builds() && (e is DimMismatch || e is ShapeMismatch),
        },
{
    match l.w {
        LoadedWeights::Quant(w) => Linear::quantized(l.rows, l.cols, w, l.bias),
        LoadedWeights::F32(data) => Linear::new(l.rows, l.cols, data, l.bias),
    }
}

proof fn lemma_vector_len(b: Seq<u8>, p: int, n: int, v5: bool)
    requires
        0 <= n,
        0 <= p,
    ensures
        rd_vector(b, p, n, v5) matches Some(t) ==> t.0.len() == n,
{
    reveal(rd_vector);
}

/// A matrix and its bias at `p`.
fn read_linear(b: &[u8], p: usize, rows: usize, cols: usize, v5: bool) -> (r: Result<
    (ReadLinear, usize),
>)
    requires
        p <= b@.len(),
    ensures
        ({
            let want = rd_linear(b@, p as int, rows as int, cols as int, v5);
            match r {
                Ok(t) => want is Some && t.0.shows((want->0).0) && t.1 == (want->0).1 && t.1
                    <= b@.len(),
                Err(e) => want is None && e is Format,
            }
        }),
{
    proof {
        reveal(rd_linear);
    }
    let (w, q) = match read_matrix(b, p, rows, cols, v5) {
        Ok(t) => t,
        Err(e) => return Err(e),
    };
    let (bias, e) = match read_vector(b, q, cols, v5) {
        Ok(t) => t,
        Err(e) => return Err(e),
    };
    proof {
        lemma_vector_len(b@, q as int, cols as int, v5);
    }
    Ok((ReadLinear { rows, cols, w, bias }, e))
}

/// A layer norm at `p`.
fn read_norm(b: &[u8], p: usize, n: usize, v5: bool) -> (r: Result<(LayerNorm, usize)>)
    requires
        p <= b@.len(),
    ensures
        ({
            let want = rd_norm(b@, p as int, n as int, v5);
            match r {
                Ok(t) => want is Some && norm_shows(t.0, n as int, (want->0).0) && t.1
                    == (want->0).1 && t.1 <= b@.len(),
                Err(e) => want is None && e is Format,
            }
        }),
{
    proof {
        reveal(rd_norm);
    }
    let (gamma, q) = match read_vector(b, p, n, v5) {
        Ok(t) => t,
        Err(e) => return Err(e),
    };
    let (beta, e) = match read_vector(b, q, n, v5) {
        Ok(t) => t,
        Err(e) => return Err(e),
    };
    proof {
        lemma_vector_len(b@, p as int, n as int, v5);
        lemma_vector_len(b@, q as int, n as int, v5);
    }
    match LayerNorm::new(n, gamma, beta) {
        Ok(l) => Ok((l, e)),
        Err(e) => {
            assert(false);
            Err(e)
        },
    }
}

/// Why a layer was not read: the bytes are none, or the parts do not fit.
enum Failure {
    Broken(InferError),
    Refused(InferError),
}

/// The layer is the one at `p`, or the failure is the one that there is.
spec fn layer_read(
    b: Seq<u8>,
    p: int,
    v5: bool,
    r: std::result::Result<(AnyLayer, usize), Failure>,
) -> bool {
    let want = rd_layer(b, p, v5);
    match r {
        Ok(t) => want is Some && (want->0).0.builds() && layer_shows(t.0, (want->0).0) && t.1
            == (want->0).1 && t.1 <= b.len(),
        Err(Failure::Broken(e)) => want is None && e is Format,
        Err(Failure::Refused(e)) => want is Some && !(want->0).0.builds() && (e is DimMismatch
            || e is ShapeMismatch),
    }
}

/// The embedding at `p`, behind its tag.
fn read_embedding(b: &[u8], p: usize, v5: bool) -> (r: std::result::Result<
    (AnyLayer, usize),
    Failure,
>)
    requires
        p < b@.len(),
        b@[p as int] == TAG_EMBEDDING,
    ensures
        layer_read(b@, p as int, v5, r),
{
    if b.len() - p < 13 {
        return Err(Failure::Broken(cut_off(p, 13)));
    }
    let vocab: usize = get_u32(b, p + 1) as usize;
    let max_seq: usize = get_u32(b, p + 5) as usize;
    let width: usize = get_u32(b, p + 9) as usize;
    let (t, q) = match read_matrix(b, p + 13, vocab, width, v5) {
        Ok(t) => t,
        Err(e) => return Err(Failure::Broken(e)),
    };
    let ghost tv = (rd_matrix(b@, p + 13, vocab as int, width as int, v5)->0).0;
    let tokens: Vec<F32> = t.into_f32(Ghost(vocab as int), Ghost(width as int), Ghost(tv));
    let (s, e) = match read_matrix(b, q, max_seq, width, v5) {
        Ok(t) => t,
        Err(e) => return Err(Failure::Broken(e)),
    };
    let ghost sv = (rd_matrix(b@, q as int, max_seq as int, width as int, v5)->0).0;
    let places: Vec<F32> = s.into_f32(Ghost(max_seq as int), Ghost(width as int), Ghost(sv));
    match Embedding::new(vocab, max_seq, width, tokens, places) {
        Ok(l) => Ok((AnyLayer::Embedding(l), e)),
        Err(x) => Err(Failure::Refused(x)),
    }
}

/// The four projections of an attention, as read.
struct ReadHeads {
    q: ReadLinear,
    k: ReadLinear,
    v: ReadLinear,
    o: ReadLinear,
}

/// The four projections of an attention at `p`.
fn read_heads(b: &[u8], p: usize, c: usize, v5: bool) -> (r: Result<(ReadHeads, usize)>)
    requires
        p <= b@.len(),
    ensures
        ({
            let want = rd_heads(b@, p as int, c as int, v5);
            match r {
                Ok(t) => {
                    &&& want is Some
                    &&& t.0.q.shows(((want->0).0).0)
                    &&& t.0.k.shows(((want->0).0).1)
                    &&& t.0.v.shows(((want->0).0).2)
                    &&& t.0.o.shows(((want->0).0).3)
                    &&& t.1 == (want->0).1
                    &&& t.1 <= b@.len()
                },
                Err(e) => want is None && e is Format,
            }
        }),
{
    let (q, p1) = match read_linear(b, p, c, c, v5) {
        Ok(t) => t,
        Err(e) => return Err(e),
    };
    let (k, p2) = match read_linear(b, p1, c, c, v5) {
        Ok(t) => t,
        Err(e) => return Err(e),
    };
    let (v, p3) = match read_linear(b, p2, c, c, v5) {
        Ok(t) => t,
        Err(e) => return Err(e),
    };
    let (o, e) = match read_linear(b, p3, c, c, v5) {
        Ok(t) => t,
        Err(e) => return Err(e),
    };
    Ok((ReadHeads { q, k, v, o }, e))
}

/// The two layers of a feed-forward part at `p`.
fn read_feed(b: &[u8], p: usize, c: usize, h: usize, v5: bool) -> (r: Result<
    ((ReadLinear, ReadLinear), usize),
>)
    requires
        p <= b@.len(),
    ensures
        ({
            let want = rd_feed(b@, p as int, c as int, h as int, v5);
            match r {
                Ok(t) => {
                    &&& want is Some
                    &&& (t.0).0.shows(((want->0).0).0)
                    &&& (t.0).1.shows(((want->0).0).1)
                    &&& t.1 == (want->0).1
                    &&& t.1 <= b@.len()
                },
                Err(e) => want is None && e is Format,
            }
        }),
{
    let (f1, q) = match read_linear(b, p, c, h, v5) {
        Ok(t) => t,
        Err(e) => return Err(e),
    };
    let (f2, e) = match read_linear(b, q, h, c, v5) {
        Ok(t) => t,
        Err(e) => return Err(e),
    };
    Ok(((f1, f2), e))
}

/// A block of what was read.
fn build_block(
    context: usize,
    heads: usize,
    c: usize,
    ln1: LayerNorm,
    a: ReadHeads,
    ln2: LayerNorm,
    f: (ReadLinear, ReadLinear),
    t: Ghost<BlockView>,
) -> (r: Result<TransformerBlock>)
    requires
        context == t@.context,
        heads == t@.heads,
        c == t@.width,
        norm_shows(ln1, c as int, t@.ln1),
        norm_shows(ln2, c as int, t@.ln2),
        a.q.shows(t@.q) && a.k.shows(t@.k) && a.v.shows(t@.v) && a.o.shows(t@.o),
        f.0.shows(t@.f1) && f.1.shows(t@.f2),
        a.q.rows == c && a.q.cols == c && a.k.rows == c && a.k.cols == c,
        a.v.rows == c && a.v.cols == c && a.o.rows == c && a.o.cols == c,
        f.0.rows == c && f.1.cols == c && f.0.cols == f.1.rows && f.0.cols == t@.hidden,
    ensures
        match r {
            Ok(x) => LayerView::Block(t@).builds() && block_shows(x, t@),
            Err(e) => !LayerView::Block(t@).builds() && (e is DimMismatch || e is ShapeMismatch),
        },
{
    let q: Linear = match linear_from_loaded(a.q, Ghost(t@.q)) {
        Ok(l) => l,
        Err(e) => return Err(e),
    };
    let k: Linear = match linear_from_loaded(a.k, Ghost(t@.k)) {
        Ok(l) => l,
        Err(e) => return Err(e),
    };
    let v: Linear = match linear_from_loaded(a.v, Ghost(t@.v)) {
        Ok(l) => l,
        Err(e) => return Err(e),
    };
    let o: Linear = match linear_from_loaded(a.o, Ghost(t@.o)) {
        Ok(l) => l,
        Err(e) => return Err(e),
    };
    let f1: Linear = match linear_from_loaded(f.0, Ghost(t@.f1)) {
        Ok(l) => l,
        Err(e) => return Err(e),
    };
    let f2: Linear = match linear_from_loaded(f.1, Ghost(t@.f2)) {
        Ok(l) => l,
        Err(e) => return Err(e),
    };
    TransformerBlock::from_parts(context, heads, c, ln1, q, k, v, o, ln2, f1, f2)
}

proof fn lemma_linear_sizes(b: Seq<u8>, p: int, rows: int, cols: int, v5: bool)
    ensures
        rd_linear(b, p, rows, cols, v5) matches Some(t) ==> t.0.rows == rows && t.0.cols == cols,
{
    reveal(rd_linear);
}

/// The block at `p`, behind its tag.
fn read_block(b: &[u8], p: usize, v5: bool) -> (r: std::result::Result<(AnyLayer, usize), Failure>)
    requires
        p < b@.len(),
        b@[p as int] == TAG_TRANSFORMER_BLOCK,
    ensures
        layer_read(b@, p as int, v5, r),
{
    if b.len() - p < 17 {
        return Err(Failure::Broken(cut_off(p, 17)));
    }
    let context: usize = get_u32(b, p + 1) as usize;
    let heads: usize = get_u32(b, p + 5) as usize;
    let c: usize = get_u32(b, p + 9) as usize;
    let h: usize = get_u32(b, p + 13) as usize;
    let (ln1, p1) = match read_norm(b, p + 17, c, v5) {
        Ok(t) => t,
        Err(e) => return Err(Failure::Broken(e)),
    };
    let (a, p2) = match read_heads(b, p1, c, v5) {
        Ok(t) => t,
        Err(e) => return Err(Failure::Broken(e)),
    };
    let (ln2, p3) = match read_norm(b, p2, c, v5) {
        Ok(t) => t,
        Err(e) => return Err(Failure::Broken(e)),
    };
    let (f, e) = match read_feed(b, p3, c, h, v5) {
        Ok(t) => t,
        Err(e) => return Err(Failure::Broken(e)),
    };
    let ghost t = (rd_block(
        b@,
        p + 17,
        context as int,
        heads as int,
        c as int,
        h as int,
        v5,
    )->0).0;
    proof {
        lemma_heads_sizes(b@, p1 as int, c as int, v5);
        lemma_feed_sizes(b@, p3 as int, c as int, h as int, v5);
    }
    match build_block(context, heads, c, ln1, a, ln2, f, Ghost(t)) {
        Ok(l) => Ok((AnyLayer::Transformer(l), e)),
        Err(x) => Err(Failure::Refused(x)),
    }
}

proof fn lemma_heads_sizes(b: Seq<u8>, p: int, c: int, v5: bool)
    ensures
        rd_heads(b, p, c, v5) matches Some(t) ==> {
            &&& ((t.0).0).rows == c && ((t.0).0).cols == c
            &&& ((t.0).1).rows == c && ((t.0).1).cols == c
            &&& ((t.0).2).rows == c && ((t.0).2).cols == c
            &&& ((t.0).3).rows == c && ((t.0).3).cols == c
        },
{
    if let Some((_, p1)) = rd_linear(b, p, c, c, v5) {
        lemma_linear_sizes(b, p, c, c, v5);
        if let Some((_, p2)) = rd_linear(b, p1, c, c, v5) {
            lemma_linear_sizes(b, p1, c, c, v5);
            if let Some((_, p3)) = rd_linear(b, p2, c, c, v5) {
                lemma_linear_sizes(b, p2, c, c, v5);
                lemma_linear_sizes(b, p3, c, c, v5);
            }
        }
    }
}

proof fn lemma_feed_sizes(b: Seq<u8>, p: int, c: int, h: int, v5: bool)
    ensures
        rd_feed(b, p, c, h, v5) matches Some(t) ==> {
            &&& ((t.0).0).rows == c && ((t.0).0).cols == h
            &&& ((t.0).1).rows == h && ((t.0).1).cols == c
        },
{
    lemma_linear_sizes(b, p, c, h, v5);
    if let Some((_, q)) = rd_linear(b, p, c, h, v5) {
        lemma_linear_sizes(b, q, h, c, v5);
    }
}

/// The layer at `p`.
fn read_layer(b: &[u8], p: usize, v5: bool) -> (r: std::result::Result<(AnyLayer, usize), Failure>)
    requires
        p <= b@.len(),
    ensures
        layer_read(b@, p as int, v5, r),
{
    let total: usize = b.len();
    if p >= total {
        return Err(Failure::Broken(cut_off(p, 1)));
    }
    let tag: u8 = b[p];
    if tag == TAG_LINEAR {
        if total - p < 9 {
            return Err(Failure::Broken(cut_off(p, 9)));
        }
        let rows: usize = get_u32(b, p + 1) as usize;
        let cols: usize = get_u32(b, p + 5) as usize;
        let (l, e) = match read_linear(b, p + 9, rows, cols, v5) {
            Ok(t) => t,
            Err(e) => return Err(Failure::Broken(e)),
        };
        let ghost lv = (rd_linear(b@, p + 9, rows as int, cols as int, v5)->0).0;
        return match linear_from_loaded(l, Ghost(lv)) {
            Ok(l) => Ok((AnyLayer::Linear(l), e)),
            Err(x) => Err(Failure::Refused(x)),
        };
    }
    if tag == TAG_ACTIVATION {
        if total - p < 2 {
            return Err(Failure::Broken(cut_off(p, 2)));
        }
        let t: u8 = b[p + 1];
        return match Activation::from_tag(t) {
            Some(a) => Ok((AnyLayer::Activation(ActivationLayer::new(a)), p + 2)),
            None => Err(
                Failure::Broken(InferError::Format(with_number("bad act tag ", t as usize, ""))),
            ),
        };
    }
    if tag == TAG_EMBEDDING {
        return read_embedding(b, p, v5);
    }
    if tag == TAG_LAYERNORM {
        if total - p < 5 {
            return Err(Failure::Broken(cut_off(p, 5)));
        }
        let n: usize = get_u32(b, p + 1) as usize;
        return match read_norm(b, p + 5, n, v5) {
            Ok((l, e)) => Ok((AnyLayer::LayerNorm(l), e)),
            Err(e) => Err(Failure::Broken(e)),
        };
    }
    if tag == TAG_TRANSFORMER_BLOCK {
        return read_block(b, p, v5);
    }
    if tag == TAG_FLATTEN {
        return Ok((AnyLayer::Flatten(Flatten::new()), p + 1));
    }
    Err(Failure::Broken(InferError::Format(with_number("bad layer tag ", tag as usize, ""))))
}

/// Layers are as views say.
pub open spec fn layers_show(s: Seq<AnyLayer>, v: Seq<LayerView>) -> bool {
    &&& s.len() == v.len()
    &&& forall|i: int| 0 <= i < s.len() ==> layer_shows(#[trigger] s[i], v[i])
}

proof fn lemma_layers_fail(b: Seq<u8>, p: int, v5: bool, i: nat, n: nat)
    requires
        i <= n,
        !(rd_layers(b, p, v5, i) is Done),
    ensures
        rd_layers(b, p, v5, n) == rd_layers(b, p, v5, i),
    decreases n,
{
    if i < n {
        lemma_layers_fail(b, p, v5, i, (n - 1) as nat);
    }
}

/// `n` layers at `p`.
pub(crate) fn read_layers(b: &[u8], p: usize, v5: bool, n: usize) -> (r: Result<Vec<AnyLayer>>)
    requires
        p <= b@.len(),
    ensures
        match rd_layers(b@, p as int, v5, n as nat) {
            LayersReply::Done(s, _) => r matches Ok(l) && layers_show(l@, s),
            LayersReply::Broken => r matches Err(e) && e is Format,
            LayersReply::Refused => r matches Err(e) && (e is DimMismatch || e is ShapeMismatch),
        },
{
    let mut out: Vec<AnyLayer> = Vec::new();
    let mut q: usize = p;
    let mut i: usize = 0;
    let ghost mut views: Seq<LayerView> = Seq::empty();
    while i < n
        invariant
            i <= n,
            q <= b@.len(),
            rd_layers(b@, p as int, v5, i as nat) == LayersReply::Done(views, q as int),
            layers_show(out@, views),
        decreases n - i,
    {
        match read_layer(b, q, v5) {
            Ok((l, e)) => {
                let ghost before = out@;
                out.push(l);
                proof {
                    let v = (rd_layer(b@, q as int, v5)->0).0;
                    let after = views.push(v);
                    assert forall|k: int| 0 <= k < out@.len() implies layer_shows(
                        #[trigger] out@[k],
                        after[k],
                    ) by {
                        if k < before.len() {
                            assert(out@[k] == before[k]);
                            assert(layer_shows(before[k], views[k]));
                        }
                    }
                    views = after;
                    assert((i + 1 - 1) as nat == i as nat);
                }
                q = e;
            },
            Err(f) => {
                proof {
                    assert((i + 1 - 1) as nat == i as nat);
                    lemma_layers_fail(b@, p as int, v5, (i + 1) as nat, n as nat);
                }
                return match f {
                    Failure::Broken(e) => Err(e),
                    Failure::Refused(e) => Err(e),
                };
            },
        }
        i = i + 1;
    }
    Ok(out)
}

// ---------------------------------------------------------------------------
// Writing
// ---------------------------------------------------------------------------

/// The weights of a linear layer in full precision, row by row.
pub open spec fn flat_weight(l: Linear) -> Seq<F32> {
    match l.quant {
        Some(w) => WeightView::Packed(w.kind, w.scales@, w.q@).numbers(
            w.rows as int,
            w.cols as int,
        ),
        None => l.weight.data@,
    }
}

/// The precision of vectors: nibbles are for matrices only.
pub open spec fn vector_prec(prec: QPrec) -> QPrec {
    if prec is Int4 {
        QPrec::Int8
    } else {
        prec
    }
}

/// A vector.
pub open spec fn put_vector(data: Seq<F32>, v5: bool, prec: QPrec) -> Seq<u8> {
    put_weights(data, 1, v5, vector_prec(prec))
}

/// A matrix and its bias.
#[verifier::opaque]
pub open spec fn put_linear(l: Linear, v5: bool, prec: QPrec) -> Seq<u8> {
    put_weights(flat_weight(l), l.in_f as int, v5, prec) + put_vector(l.bias.data@, v5, prec)
}

/// The two vectors of a layer norm.
#[verifier::opaque]
pub open spec fn put_norm(l: LayerNorm, v5: bool, prec: QPrec) -> Seq<u8> {
    put_vector(l.gamma.data@, v5, prec) + put_vector(l.beta.data@, v5, prec)
}

/// The parts of a block.
#[verifier::opaque]
pub open spec fn put_block(t: TransformerBlock, v5: bool, prec: QPrec) -> Seq<u8> {
    put_norm(t.ln1, v5, prec) + (put_linear(t.q_proj, v5, prec) + (put_linear(t.k_proj, v5, prec)
        + (put_linear(t.v_proj, v5, prec) + (put_linear(t.out_proj, v5, prec) + (put_norm(
        t.ln2,
        v5,
        prec,
    ) + (put_linear(t.ffn1, v5, prec) + put_linear(t.ffn2, v5, prec)))))))
}

/// The sizes of a block.
pub open spec fn put_block_sizes(t: TransformerBlock) -> Seq<u8> {
    put_size(t.context as int) + (put_size(t.heads as int) + (put_size(t.width as int) + put_size(
        t.ffn1.out_f as int,
    )))
}

/// A layer behind its tag.
pub open spec fn put_layer(l: AnyLayer, v5: bool, prec: QPrec) -> Seq<u8> {
    match l {
        AnyLayer::Linear(l) => seq![TAG_LINEAR] + (put_size(l.in_f as int) + (put_size(
            l.out_f as int,
        ) + put_linear(l, v5, prec))),
        AnyLayer::Activation(l) => seq![TAG_ACTIVATION, l.kind.tag_spec()],
        AnyLayer::Flatten(_) => seq![TAG_FLATTEN],
        AnyLayer::Embedding(l) => seq![TAG_EMBEDDING] + (put_size(l.vocab as int) + (put_size(
            l.max_seq as int,
        ) + (put_size(l.width as int) + (put_weights(
            l.token_weight.data@,
            l.vocab as int,
            v5,
            prec,
        ) + put_weights(l.pos_weight.data@, l.max_seq as int, v5, prec))))),
        AnyLayer::LayerNorm(l) => seq![TAG_LAYERNORM] + (put_size(l.width as int) + put_norm(
            l,
            v5,
            prec,
        )),
        AnyLayer::Transformer(t) => seq![TAG_TRANSFORMER_BLOCK] + (put_block_sizes(t) + put_block(
            t,
            v5,
            prec,
        )),
    }
}

/// The first `n` layers, one behind the other.
pub open spec fn put_layers(s: Seq<AnyLayer>, v5: bool, prec: QPrec, n: nat) -> Seq<u8>
    decreases n,
{
    if n == 0 {
        Seq::empty()
    } else {
        put_layers(s, v5, prec, (n - 1) as nat) + put_layer(s[n - 1], v5, prec)
    }
}

fn push_vector(out: &mut Vec<u8>, data: &[F32], v5: bool, prec: QPrec)
    ensures
        final(out)@ == old(out)@ + put_vector(data@, v5, prec),
{
    let lower: QPrec = match prec {
        QPrec::Int4 => QPrec::Int8,
        QPrec::Int8 => QPrec::Int8,
        QPrec::F32 => QPrec::F32,
    };
    push_weights(out, data, 1, v5, lower);
}

fn push_linear(out: &mut Vec<u8>, l: &Linear, v5: bool, prec: QPrec)
    requires
        l.fits(),
    ensures
        final(out)@ == old(out)@ + put_linear(*l, v5, prec),
{
    let ghost before = out@;
    let w: Vec<F32> = l.weight_f32();
    proof {
        if l.quant is Some {
            lemma_values(l.quant->0, w@);
        }
    }
    push_weights(out, w.as_slice(), l.in_f, v5, prec);
    push_vector(out, l.bias.data.as_slice(), v5, prec);
    proof {
        reveal(put_linear);
        assert(out@ =~= before + put_linear(*l, v5, prec));
    }
}

fn push_norm(out: &mut Vec<u8>, l: &LayerNorm, v5: bool, prec: QPrec)
    ensures
        final(out)@ == old(out)@ + put_norm(*l, v5, prec),
{
    let ghost before = out@;
    push_vector(out, l.gamma.data.as_slice(), v5, prec);
    push_vector(out, l.beta.data.as_slice(), v5, prec);
    proof {
        reveal(put_norm);
        assert(out@ =~= before + put_norm(*l, v5, prec));
    }
}

/// Eight parts one behind the other, however they are grouped.
proof fn lemma_eight(
    s: Seq<u8>,
    a: Seq<u8>,
    b: Seq<u8>,
    c: Seq<u8>,
    d: Seq<u8>,
    e: Seq<u8>,
    f: Seq<u8>,
    g: Seq<u8>,
    h: Seq<u8>,
)
    ensures
        s + a + b + c + d + e + f + g + h == s + (a + (b + (c + (d + (e + (f + (g + h))))))),
{
    assert(s + a + b + c + d + e + f + g + h =~= s + (a + (b + (c + (d + (e + (f + (g + h))))))));
}

fn push_block(out: &mut Vec<u8>, t: &TransformerBlock, v5: bool, prec: QPrec)
    requires
        t.fits(),
    ensures
        final(out)@ == old(out)@ + put_block(*t, v5, prec),
{
    let ghost before = out@;
    push_norm(out, &t.ln1, v5, prec);
    push_linear(out, &t.q_proj, v5, prec);
    push_linear(out, &t.k_proj, v5, prec);
    push_linear(out, &t.v_proj, v5, prec);
    push_linear(out, &t.out_proj, v5, prec);
    push_norm(out, &t.ln2, v5, prec);
    push_linear(out, &t.ffn1, v5, prec);
    push_linear(out, &t.ffn2, v5, prec);
    proof {
        reveal(put_block);
        lemma_eight(
            before,
            put_norm(t.ln1, v5, prec),
            put_linear(t.q_proj, v5, prec),
            put_linear(t.k_proj, v5, prec),
            put_linear(t.v_proj, v5, prec),
            put_linear(t.out_proj, v5, prec),
            put_norm(t.ln2, v5, prec),
            put_linear(t.ffn1, v5, prec),
            put_linear(t.ffn2, v5, prec),
        );
    }
}

/// Writes a layer behind its tag.
fn push_layer(out: &mut Vec<u8>, l: &AnyLayer, v5: bool, prec: QPrec)
    requires
        l.wf(),
    ensures
        final(out)@ == old(out)@ + put_layer(*l, v5, prec),
{
    let ghost before = out@;
    match l {
        AnyLayer::Linear(l) => {
            out.push(TAG_LINEAR);
            push_size(out, l.in_f);
            push_size(out, l.out_f);
            push_linear(out, l, v5, prec);
            assert(out@ =~= before + (seq![TAG_LINEAR] + (put_size(l.in_f as int) + (put_size(
                l.out_f as int,
            ) + put_linear(*l, v5, prec)))));
        },
        AnyLayer::Activation(l) => {
            out.push(TAG_ACTIVATION);
            out.push(l.kind.tag());
            assert(out@ =~= before + seq![TAG_ACTIVATION, l.kind.tag_spec()]);
        },
        AnyLayer::Flatten(_) => {
            out.push(TAG_FLATTEN);
            assert(out@ =~= before + seq![TAG_FLATTEN]);
        },
        AnyLayer::Embedding(l) => {
            out.push(TAG_EMBEDDING);
            push_size(out, l.vocab);
            push_size(out, l.max_seq);
            push_size(out, l.width);
            push_weights(out, l.token_weight.data.as_slice(), l.vocab, v5, prec);
            push_weights(out, l.pos_weight.data.as_slice(), l.max_seq, v5, prec);
            assert(out@ =~= before + (seq![TAG_EMBEDDING] + (put_size(l.vocab as int) + (put_size(
                l.max_seq as int,
            ) + (put_size(l.width as int) + (put_weights(
                l.token_weight.data@,
                l.vocab as int,
                v5,
                prec,
            ) + put_weights(l.pos_weight.data@, l.max_seq as int, v5, prec)))))));
        },
        AnyLayer::LayerNorm(l) => {
            out.push(TAG_LAYERNORM);
            push_size(out, l.width);
            push_norm(out, l, v5, prec);
            assert(out@ =~= before + (seq![TAG_LAYERNORM] + (put_size(l.width as int) + put_norm(
                *l,
                v5,
                prec,
            ))));
        },
        AnyLayer::Transformer(t) => {
            out.push(TAG_TRANSFORMER_BLOCK);
            push_size(out, t.context);
            push_size(out, t.heads);
            push_size(out, t.width);
            push_size(out, t.hidden_dim());
            let ghost head = out@;
            push_block(out, t, v5, prec);
            proof {
                assert(head =~= before + (seq![TAG_TRANSFORMER_BLOCK] + put_block_sizes(*t)));
                let rest = put_block(*t, v5, prec);
                assert(head + rest =~= before + (seq![TAG_TRANSFORMER_BLOCK] + (put_block_sizes(*t)
                    + rest)));
            }
        },
    }
}

/// Writes layers, one behind the other.
pub(crate) fn push_layers(out: &mut Vec<u8>, s: &[AnyLayer], v5: bool, prec: QPrec)
    requires
        forall|i: int| 0 <= i < s@.len() ==> (#[trigger] s@[i]).wf(),
    ensures
        final(out)@ == old(out)@ + put_layers(s@, v5, prec, s@.len()),
{
    let ghost before = out@;
    let mut i: usize = 0;
    assert(before + put_layers(s@, v5, prec, 0) =~= before);
    while i < s.len()
        invariant
            i <= s@.len(),
            forall|i: int| 0 <= i < s@.len() ==> (#[trigger] s@[i]).wf(),
            out@ == before + put_layers(s@, v5, prec, i as nat),
        decreases s@.len() - i,
    {
        let ghost start = put_layers(s@, v5, prec, i as nat);
        push_layer(out, &s[i], v5, prec);
        proof {
            assert((i + 1 - 1) as nat == i as nat);
            let last = put_layer(s@[i as int], v5, prec);
            assert(before + start + last =~= before + (start + last));
        }
        i = i + 1;
    }
}

// ---------------------------------------------------------------------------
// What is written is read
// ---------------------------------------------------------------------------

/// The linear layer that is read where one was written.
pub open spec fn linear_held(l: Linear, v5: bool, prec: QPrec) -> LinearView {
    LinearView {
        rows: l.in_f as int,
        cols: l.out_f as int,
        weight: held(flat_weight(l), l.in_f as int, l.out_f as int, v5, prec),
        bias: vector_held(l.bias.data@, v5, vector_prec(prec)),
    }
}

/// The layer norm that is read where one was written.
pub open spec fn norm_held(l: LayerNorm, v5: bool, prec: QPrec) -> NormView {
    NormView {
        gamma: vector_held(l.gamma.data@, v5, vector_prec(prec)),
        beta: vector_held(l.beta.data@, v5, vector_prec(prec)),
    }
}

/// The layer that is read where one was written.
pub open spec fn layer_held(l: AnyLayer, v5: bool, prec: QPrec) -> LayerView {
    match l {
        AnyLayer::Linear(l) => LayerView::Linear(linear_held(l, v5, prec)),
        AnyLayer::Activation(l) => LayerView::Activation(l.kind),
        AnyLayer::Flatten(_) => LayerView::Flatten,
        AnyLayer::Embedding(l) => LayerView::Embedding(
            TableView {
                vocab: l.vocab as int,
                max_seq: l.max_seq as int,
                width: l.width as int,
                tokens: held(
                    l.token_weight.data@,
                    l.vocab as int,
                    l.width as int,
                    v5,
                    prec,
                ).numbers(l.vocab as int, l.width as int),
                places: held(
                    l.pos_weight.data@,
                    l.max_seq as int,
                    l.width as int,
                    v5,
                    prec,
                ).numbers(l.max_seq as int, l.width as int),
            },
        ),
        AnyLayer::LayerNorm(l) => LayerView::LayerNorm(l.width as int, norm_held(l, v5, prec)),
        AnyLayer::Transformer(t) => LayerView::Block(
            BlockView {
                context: t.context as int,
                heads: t.heads as int,
                width: t.width as int,
                hidden: t.ffn1.out_f as int,
                ln1: norm_held(t.ln1, v5, prec),
                q: linear_held(t.q_proj, v5, prec),
                k: linear_held(t.k_proj, v5, prec),
                v: linear_held(t.v_proj, v5, prec),
                o: linear_held(t.out_proj, v5, prec),
                ln2: norm_held(t.ln2, v5, prec),
                f1: linear_held(t.ffn1, v5, prec),
                f2: linear_held(t.ffn2, v5, prec),
            },
        ),
    }
}

/// Whether four bytes hold a size.
pub open spec fn is_short(n: usize) -> bool {
    n < 0x1_0000_0000
}

/// Whether four bytes hold each size of a layer.
pub open spec fn sizes_short(l: AnyLayer) -> bool {
    match l {
        AnyLayer::Linear(l) => is_short(l.in_f) && is_short(l.out_f),
        AnyLayer::Embedding(l) => is_short(l.vocab) && is_short(l.max_seq) && is_short(l.width),
        AnyLayer::LayerNorm(l) => is_short(l.width),
        AnyLayer::Transformer(t) => is_short(t.context) && is_short(t.heads) && is_short(t.width)
            && is_short(t.ffn1.out_f),
        _ => true,
    }
}

proof fn lemma_size_is_read(b: Seq<u8>, p: int, n: usize, rest: Seq<u8>)
    requires
        is_short(n),
        stands_at(b, p, put_size(n as int) + rest),
    ensures
        le32(b, p) == n,
        stands_at(b, p + 4, rest),
{
    lemma_stands_split(b, p, put_size(n as int), rest);
    lemma_le32(b, p, n as int);
}

proof fn lemma_tag_is_read(b: Seq<u8>, p: int, tag: u8, rest: Seq<u8>)
    requires
        stands_at(b, p, seq![tag] + rest),
    ensures
        0 <= p < b.len(),
        b[p] == tag,
        stands_at(b, p + 1, rest),
{
    lemma_stands_split(b, p, seq![tag], rest);
    assert(b.subrange(p, p + 1)[0] == tag);
}

proof fn lemma_flat_len(l: Linear)
    requires
        l.fits(),
    ensures
        flat_weight(l).len() == l.in_f * l.out_f,
{
}

proof fn lemma_linear_is_read(b: Seq<u8>, p: int, l: Linear, v5: bool, prec: QPrec, rest: Seq<u8>)
    requires
        l.fits(),
        is_short(l.in_f),
        stands_at(b, p, put_linear(l, v5, prec) + rest),
    ensures
        rd_linear(b, p, l.in_f as int, l.out_f as int, v5) == Some(
            (linear_held(l, v5, prec), p + put_linear(l, v5, prec).len()),
        ),
        stands_at(b, p + put_linear(l, v5, prec).len(), rest),
{
    reveal(rd_linear);
    reveal(put_linear);
    lemma_flat_len(l);
    let w = put_weights(flat_weight(l), l.in_f as int, v5, prec);
    let v = put_vector(l.bias.data@, v5, prec);
    lemma_stands_split(b, p, w + v, rest);
    lemma_stands_split(b, p, w, v);
    matrices_are_read_back(b, p, flat_weight(l), l.in_f as int, l.out_f as int, v5, prec);
    vectors_are_read_back(b, p + w.len(), l.bias.data@, v5, vector_prec(prec));
}

proof fn lemma_norm_is_read(b: Seq<u8>, p: int, l: LayerNorm, v5: bool, prec: QPrec, rest: Seq<u8>)
    requires
        l.wf(),
        stands_at(b, p, put_norm(l, v5, prec) + rest),
    ensures
        rd_norm(b, p, l.width as int, v5) == Some(
            (norm_held(l, v5, prec), p + put_norm(l, v5, prec).len()),
        ),
        stands_at(b, p + put_norm(l, v5, prec).len(), rest),
{
    reveal(rd_norm);
    reveal(put_norm);
    let g = put_vector(l.gamma.data@, v5, prec);
    let t = put_vector(l.beta.data@, v5, prec);
    lemma_stands_split(b, p, g + t, rest);
    lemma_stands_split(b, p, g, t);
    vectors_are_read_back(b, p, l.gamma.data@, v5, vector_prec(prec));
    vectors_are_read_back(b, p + g.len(), l.beta.data@, v5, vector_prec(prec));
}

proof fn lemma_block_is_read(b: Seq<u8>, p: int, t: TransformerBlock, v5: bool, prec: QPrec)
    requires
        t.fits(),
        sizes_short(AnyLayer::Transformer(t)),
        stands_at(b, p, put_block(t, v5, prec)),
    ensures
        ({
            let want = layer_held(AnyLayer::Transformer(t), v5, prec);
            rd_block(
                b,
                p,
                t.context as int,
                t.heads as int,
                t.width as int,
                t.ffn1.out_f as int,
                v5,
            ) == Some((want->Block_0, p + put_block(t, v5, prec).len()))
        }),
{
    reveal(put_block);
    let h = put_linear(t.ffn2, v5, prec);
    let gh = put_linear(t.ffn1, v5, prec) + h;
    let fh = put_norm(t.ln2, v5, prec) + gh;
    let eh = put_linear(t.out_proj, v5, prec) + fh;
    let dh = put_linear(t.v_proj, v5, prec) + eh;
    let ch = put_linear(t.k_proj, v5, prec) + dh;
    let bh = put_linear(t.q_proj, v5, prec) + ch;
    let p0 = p + put_norm(t.ln1, v5, prec).len();
    let p1 = p0 + put_linear(t.q_proj, v5, prec).len();
    let p2 = p1 + put_linear(t.k_proj, v5, prec).len();
    let p3 = p2 + put_linear(t.v_proj, v5, prec).len();
    let p4 = p3 + put_linear(t.out_proj, v5, prec).len();
    let p5 = p4 + put_norm(t.ln2, v5, prec).len();
    let p6 = p5 + put_linear(t.ffn1, v5, prec).len();
    lemma_norm_is_read(b, p, t.ln1, v5, prec, bh);
    lemma_linear_is_read(b, p0, t.q_proj, v5, prec, ch);
    lemma_linear_is_read(b, p1, t.k_proj, v5, prec, dh);
    lemma_linear_is_read(b, p2, t.v_proj, v5, prec, eh);
    lemma_linear_is_read(b, p3, t.out_proj, v5, prec, fh);
    lemma_norm_is_read(b, p4, t.ln2, v5, prec, gh);
    lemma_linear_is_read(b, p5, t.ffn1, v5, prec, h);
    assert(h + Seq::<u8>::empty() =~= h);
    lemma_linear_is_read(b, p6, t.ffn2, v5, prec, Seq::empty());
}

proof fn lemma_linear_layer(b: Seq<u8>, p: int, x: Linear, v5: bool, prec: QPrec)
    requires
        x.fits(),
        is_short(x.in_f),
        is_short(x.out_f),
        stands_at(b, p, put_layer(AnyLayer::Linear(x), v5, prec)),
    ensures
        rd_layer(b, p, v5) == Some(
            (
                LayerView::Linear(linear_held(x, v5, prec)),
                p + put_layer(AnyLayer::Linear(x), v5, prec).len(),
            ),
        ),
        linear_held(x, v5, prec).builds(),
{
    let r2 = put_linear(x, v5, prec);
    let r1 = put_size(x.out_f as int) + r2;
    lemma_tag_is_read(b, p, TAG_LINEAR, put_size(x.in_f as int) + r1);
    lemma_size_is_read(b, p + 1, x.in_f, r1);
    lemma_size_is_read(b, p + 5, x.out_f, r2);
    assert(r2 + Seq::<u8>::empty() =~= r2);
    lemma_linear_is_read(b, p + 9, x, v5, prec, Seq::empty());
    lemma_flat_len(x);
}

proof fn lemma_activation_layer(b: Seq<u8>, p: int, x: ActivationLayer, v5: bool)
    requires
        stands_at(b, p, seq![TAG_ACTIVATION, x.kind.tag_spec()]),
    ensures
        rd_layer(b, p, v5) == Some((LayerView::Activation(x.kind), p + 2)),
{
    let tag = x.kind.tag_spec();
    assert(seq![TAG_ACTIVATION, tag] =~= seq![TAG_ACTIVATION] + seq![tag]);
    lemma_tag_is_read(b, p, TAG_ACTIVATION, seq![tag]);
    assert(seq![tag] + Seq::<u8>::empty() =~= seq![tag]);
    lemma_tag_is_read(b, p + 1, tag, Seq::empty());
    tags_round_trip(x.kind, tag);
}

/// Whether the tables of an embedding have a size that can be held.
pub open spec fn tables_fit(t: Embedding) -> bool {
    t.vocab * t.width <= usize::MAX && t.max_seq * t.width <= usize::MAX
}

/// A matrix that is read has as many numbers as were written.
proof fn lemma_held_len(data: Seq<F32>, rows: int, cols: int, v5: bool, prec: QPrec)
    requires
        data.len() == rows * cols,
    ensures
        held(data, rows, cols, v5, prec).numbers(rows, cols).len() == data.len(),
{
}

proof fn lemma_embedding_layer(b: Seq<u8>, p: int, x: Embedding, v5: bool, prec: QPrec)
    requires
        x.wf(),
        is_short(x.vocab),
        is_short(x.max_seq),
        is_short(x.width),
        tables_fit(x),
        stands_at(b, p, put_layer(AnyLayer::Embedding(x), v5, prec)),
    ensures
        rd_layer(b, p, v5) == Some(
            (
                layer_held(AnyLayer::Embedding(x), v5, prec),
                p + put_layer(AnyLayer::Embedding(x), v5, prec).len(),
            ),
        ),
        layer_held(AnyLayer::Embedding(x), v5, prec).builds(),
{
    let w1 = put_weights(x.token_weight.data@, x.vocab as int, v5, prec);
    let w2 = put_weights(x.pos_weight.data@, x.max_seq as int, v5, prec);
    let r3 = w1 + w2;
    let r2 = put_size(x.width as int) + r3;
    let r1 = put_size(x.max_seq as int) + r2;
    lemma_tag_is_read(b, p, TAG_EMBEDDING, put_size(x.vocab as int) + r1);
    lemma_size_is_read(b, p + 1, x.vocab, r1);
    lemma_size_is_read(b, p + 5, x.max_seq, r2);
    lemma_size_is_read(b, p + 9, x.width, r3);
    lemma_stands_split(b, p + 13, w1, w2);
    matrices_are_read_back(
        b,
        p + 13,
        x.token_weight.data@,
        x.vocab as int,
        x.width as int,
        v5,
        prec,
    );
    matrices_are_read_back(
        b,
        p + 13 + w1.len(),
        x.pos_weight.data@,
        x.max_seq as int,
        x.width as int,
        v5,
        prec,
    );
    lemma_held_len(x.token_weight.data@, x.vocab as int, x.width as int, v5, prec);
    lemma_held_len(x.pos_weight.data@, x.max_seq as int, x.width as int, v5, prec);
}

proof fn lemma_norm_layer(b: Seq<u8>, p: int, x: LayerNorm, v5: bool, prec: QPrec)
    requires
        x.wf(),
        is_short(x.width),
        stands_at(b, p, put_layer(AnyLayer::LayerNorm(x), v5, prec)),
    ensures
        rd_layer(b, p, v5) == Some(
            (
                LayerView::LayerNorm(x.width as int, norm_held(x, v5, prec)),
                p + put_layer(AnyLayer::LayerNorm(x), v5, prec).len(),
            ),
        ),
{
    let r1 = put_norm(x, v5, prec);
    lemma_tag_is_read(b, p, TAG_LAYERNORM, put_size(x.width as int) + r1);
    lemma_size_is_read(b, p + 1, x.width, r1);
    assert(r1 + Seq::<u8>::empty() =~= r1);
    lemma_norm_is_read(b, p + 5, x, v5, prec, Seq::empty());
}

proof fn lemma_held_builds(l: Linear, v5: bool, prec: QPrec)
    requires
        l.fits(),
    ensures
        linear_held(l, v5, prec).builds(),
{
    lemma_flat_len(l);
}

proof fn lemma_block_layer(b: Seq<u8>, p: int, t: TransformerBlock, v5: bool, prec: QPrec)
    requires
        t.fits(),
        sizes_short(AnyLayer::Transformer(t)),
        stands_at(b, p, put_layer(AnyLayer::Transformer(t), v5, prec)),
    ensures
        rd_layer(b, p, v5) == Some(
            (
                layer_held(AnyLayer::Transformer(t), v5, prec),
                p + put_layer(AnyLayer::Transformer(t), v5, prec).len(),
            ),
        ),
        layer_held(AnyLayer::Transformer(t), v5, prec).builds(),
{
    let rest = put_block(t, v5, prec);
    let r4 = put_size(t.ffn1.out_f as int) + rest;
    let r3 = put_size(t.width as int) + r4;
    let r2 = put_size(t.heads as int) + r3;
    assert(put_block_sizes(t) + rest =~= put_size(t.context as int) + r2);
    lemma_tag_is_read(b, p, TAG_TRANSFORMER_BLOCK, put_size(t.context as int) + r2);
    lemma_size_is_read(b, p + 1, t.context, r2);
    lemma_size_is_read(b, p + 5, t.heads, r3);
    lemma_size_is_read(b, p + 9, t.width, r4);
    lemma_size_is_read(b, p + 13, t.ffn1.out_f, rest);
    lemma_block_is_read(b, p + 17, t, v5, prec);
    lemma_held_builds(t.q_proj, v5, prec);
    lemma_held_builds(t.k_proj, v5, prec);
    lemma_held_builds(t.v_proj, v5, prec);
    lemma_held_builds(t.out_proj, v5, prec);
    lemma_held_builds(t.ffn1, v5, prec);
    lemma_held_builds(t.ffn2, v5, prec);
}

/// A layer that was written is read: as it was in full precision, or with its
/// weights on the grid that they were written on.
pub proof fn layers_are_read_back(b: Seq<u8>, p: int, l: AnyLayer, v5: bool, prec: QPrec)
    requires
        is_writable(l),
        stands_at(b, p, put_layer(l, v5, prec)),
    ensures
        rd_layer(b, p, v5) == Some(
            (layer_held(l, v5, prec), p + put_layer(l, v5, prec).len()),
        ),
        layer_held(l, v5, prec).builds(),
{
    match l {
        AnyLayer::Linear(x) => lemma_linear_layer(b, p, x, v5, prec),
        AnyLayer::Activation(x) => lemma_activation_layer(b, p, x, v5),
        AnyLayer::Flatten(_) => {
            assert(seq![TAG_FLATTEN] + Seq::<u8>::empty() =~= seq![TAG_FLATTEN]);
            lemma_tag_is_read(b, p, TAG_FLATTEN, Seq::empty());
        },
        AnyLayer::Embedding(x) => lemma_embedding_layer(b, p, x, v5, prec),
        AnyLayer::LayerNorm(x) => lemma_norm_layer(b, p, x, v5, prec),
        AnyLayer::Transformer(t) => lemma_block_layer(b, p, t, v5, prec),
    }
}

/// The layers that are read where layers were written.
pub open spec fn layers_held(s: Seq<AnyLayer>, v5: bool, prec: QPrec) -> Seq<LayerView> {
    s.map_values(|l: AnyLayer| layer_held(l, v5, prec))
}

/// Whether a layer can be written so that it is read again.
pub open spec fn is_writable(l: AnyLayer) -> bool {
    &&& l.wf()
    &&& sizes_short(l)
    &&& l matches AnyLayer::Embedding(t) ==> tables_fit(t)
}

/// All layers that were written are read, in order.
pub proof fn stacks_are_read_back(
    b: Seq<u8>,
    p: int,
    s: Seq<AnyLayer>,
    v5: bool,
    prec: QPrec,
    n: nat,
)
    requires
        n <= s.len(),
        forall|i: int| 0 <= i < s.len() ==> is_writable(#[trigger] s[i]),
        stands_at(b, p, put_layers(s, v5, prec, n)),
    ensures
        rd_layers(b, p, v5, n) == LayersReply::Done(
            layers_held(s, v5, prec).take(n as int),
            p + put_layers(s, v5, prec, n).len(),
        ),
    decreases n,
{
    let all = layers_held(s, v5, prec);
    if n == 0 {
        assert(all.take(0) =~= Seq::empty());
    } else {
        let m = (n - 1) as nat;
        let before = put_layers(s, v5, prec, m);
        let last = put_layer(s[n - 1], v5, prec);
        lemma_stands_split(b, p, before, last);
        stacks_are_read_back(b, p, s, v5, prec, m);
        assert(is_writable(s[n - 1]));
        layers_are_read_back(b, p + before.len(), s[n - 1], v5, prec);
        assert(all.take(n as int) =~= all.take(m as int).push(all[n - 1]));
    }
}

} // verus!
