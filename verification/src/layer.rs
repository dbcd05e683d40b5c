//! Layers: affine, activation, flatten, layer norm, embedding.
use crate::activation::Activation;
use crate::error::{InferError, Result};
use crate::float::{of_int, F32};
use crate::index::{cell, lemma_row};
use crate::math::Math;
use crate::ops::{
    append_row, is_linear, is_qlinear, linear_forward, mismatch, not_matrix, qlinear, row_of, sum,
    sum_of,
};
use crate::quant::{inverse_scale, level_limit, level_of, row_scale, QKind, QWeight};
use crate::tensor::{copy_f32, Tensor};
use crate::text::{dec, push_dec};
use vstd::prelude::*;
use vstd::slice::slice_subrange;

pub use crate::transformer::{KvCache, TransformerBlock};

verus! {

/// What every layer has.
pub trait Layer {
    /// Parameters and sizes fit together.
    spec fn wf(&self) -> bool;

    /// Whether the layer refuses `x` with the error `e`.
    spec fn is_refusal(&self, x: Tensor, e: InferError) -> bool;

    /// The description that `name` returns.
    spec fn label(&self) -> Seq<char>;

    /// A short description.
    fn name(&self) -> (s: String)
        ensures
            s@ == self.label(),
    ;
}

/// Application of a layer, with elementary functions from `M`.
pub trait Forward<M: Math>: Layer {
    /// Whether the layer may make `t` of `x`.
    spec fn is_output(&self, m: &M, x: Tensor, t: Tensor) -> bool;

    /// Applies the layer.
    fn forward(&self, m: &M, input: &Tensor) -> (r: Result<Tensor>)
        requires
            self.wf(),
            input.wf(),
        ensures
            match r {
                Ok(t) => t.wf() && self.is_output(m, *input, t),
                Err(e) => self.is_refusal(*input, e),
            },
    ;
}

// ---------------------------------------------------------------------------
// Affine layer
// ---------------------------------------------------------------------------

/// `x * w + b`, with the weight in full precision or quantized. A quantized
/// layer holds no full-precision weight.
#[derive(Clone, Debug)]
pub struct Linear {
    pub weight: Tensor,
    pub bias: Tensor,
    pub in_f: usize,
    pub out_f: usize,
    pub quant: Option<QWeight>,
}

impl Linear {
    /// Sizes agree.
    pub open spec fn fits(self) -> bool {
        &&& self.bias.data@.len() == self.out_f
        &&& self.in_f * self.out_f <= usize::MAX
        &&& match self.quant {
            Some(w) => w.wf() && w.rows == self.in_f && w.cols == self.out_f
                && self.weight.data@.len() == 0,
            None => self.weight.wf() && self.weight.is_sized(self.in_f as int, self.out_f as int),
        }
    }

    /// The weight from input `r` to output `c`.
    pub open spec fn weight_at(self, r: int, c: int) -> F32 {
        match self.quant {
            Some(w) => w.value(r, c),
            None => self.weight.data@[cell(r, c, self.out_f as int)],
        }
    }

    /// The weights from input `r`.
    pub open spec fn weight_row(self, r: int) -> Seq<F32> {
        Seq::new(self.out_f as nat, |c: int| self.weight_at(r, c))
    }

    /// Whether `t` is the affine image of `x`.
    pub open spec fn maps(self, x: Tensor, t: Tensor) -> bool {
        match self.quant {
            Some(w) => is_qlinear(x, w, self.bias.data@, t),
            None => is_linear(x, self.weight, self.bias.data@, t),
        }
    }

    /// A full-precision layer.
    pub fn new(in_f: usize, out_f: usize, weight: Vec<F32>, bias: Vec<F32>) -> (r: Result<Self>)
        ensures
            match r {
                Ok(l) => {
                    &&& bias@.len() == out_f
                    &&& weight@.len() == in_f * out_f
                    &&& l.fits()
                    &&& l.in_f == in_f
                    &&& l.out_f == out_f
                    &&& l.quant is None
                    &&& l.weight.data@ == weight@
                    &&& l.bias.data@ == bias@
                },
                Err(e) => {
                    ||| bias@.len() != out_f && e is DimMismatch
                    ||| bias@.len() == out_f && weight@.len() != in_f * out_f && e is ShapeMismatch
                },
            },
    {
        if bias.len() != out_f {
            return Err(mismatch("bias length ", bias.len(), " ≠ out_features ", out_f));
        }
        let held: usize = weight.len();
        match Tensor::matrix(in_f, out_f, weight) {
            Ok(w) => Ok(
                Linear { weight: w, bias: Tensor::vector(bias), in_f, out_f, quant: None },
            ),
            Err(e) => Err(e),
        }
    }

    /// A layer on a quantized weight.
    pub fn quantized(in_f: usize, out_f: usize, w: QWeight, bias: Vec<F32>) -> (r: Result<Self>)
        requires
            w.wf(),
        ensures
            match r {
                Ok(l) => {
                    &&& bias@.len() == out_f && w.rows == in_f && w.cols == out_f
                    &&& l.fits()
                    &&& l.in_f == in_f
                    &&& l.out_f == out_f
                    &&& l.quant == Some(w)
                    &&& l.bias.data@ == bias@
                },
                Err(e) => e is DimMismatch && (bias@.len() != out_f || w.rows != in_f || w.cols
                    != out_f || in_f * out_f > usize::MAX),
            },
    {
        if bias.len() != out_f {
            return Err(mismatch("bias length ", bias.len(), " ≠ out_features ", out_f));
        }
        if w.rows != in_f {
            return Err(mismatch("quantized weight rows ", w.rows, " ≠ in_features ", in_f));
        }
        if w.cols != out_f {
            return Err(mismatch("quantized weight cols ", w.cols, " ≠ out_features ", out_f));
        }
        if in_f.checked_mul(out_f).is_none() {
            return Err(mismatch("quantized weight too large: ", in_f, " by ", out_f));
        }
        Ok(
            Linear {
                weight: Tensor::vector(Vec::new()),
                bias: Tensor::vector(bias),
                in_f,
                out_f,
                quant: Some(w),
            },
        )
    }

    /// Width of the input.
    pub fn in_features(&self) -> (n: usize)
        ensures
            n == self.in_f,
    {
        self.in_f
    }

    /// Width of the output.
    pub fn out_features(&self) -> (n: usize)
        ensures
            n == self.out_f,
    {
        self.out_f
    }

    /// The quantized weight, if the layer holds one.
    pub fn qweight(&self) -> (r: Option<&QWeight>)
        ensures
            r == (match self.quant {
                Some(w) => Some(&w),
                None => None,
            }),
    {
        self.quant.as_ref()
    }

    /// The weight in full precision, row by row.
    pub fn weight_f32(&self) -> (v: Vec<F32>)
        requires
            self.fits(),
        ensures
            v@.len() == self.in_f * self.out_f,
            forall|r: int, c: int|
                0 <= r < self.in_f && 0 <= c < self.out_f ==> #[trigger] v@[cell(
                    r,
                    c,
                    self.out_f as int,
                )] == self.weight_at(r, c),
            self.quant is None ==> v@ == self.weight.data@,
    {
        match &self.quant {
            Some(w) => w.to_f32(),
            None => copy_f32(self.weight.data.as_slice()),
        }
    }

    /// The layer with its weight quantized, each row on its own scale.
    pub fn quantize(&self, kind: QKind) -> (l: Linear)
        requires
            self.fits(),
        ensures
            l.fits(),
            l.in_f == self.in_f,
            l.out_f == self.out_f,
            l.bias.data@ == self.bias.data@,
            l.quant is Some,
            l.quant->0.kind == kind,
            forall|r: int|
                0 <= r < self.in_f ==> #[trigger] l.quant->0.scales@[r] == row_scale(
                    self.weight_row(r),
                    kind,
                ),
            forall|r: int, c: int|
                0 <= r < self.in_f && 0 <= c < self.out_f ==> #[trigger] l.quant->0.level(r, c)
                    == level_of(
                    self.weight_at(r, c),
                    inverse_scale(l.quant->0.scales@[r]),
                    level_limit(kind),
                ),
    {
        let data: Vec<F32> = self.weight_f32();
        let w: QWeight = QWeight::from_f32(data.as_slice(), self.in_f, self.out_f, kind);
        proof {
            assert forall|r: int| 0 <= r < self.in_f implies #[trigger] w.scales@[r] == row_scale(
                self.weight_row(r),
                kind,
            ) by {
                lemma_row(r, self.in_f as int, self.out_f as int);
                let row = row_of(data@, r, self.out_f as int);
                assert forall|c: int| 0 <= c < self.out_f implies row[c] == self.weight_at(r, c) by {
                    assert(data@[cell(r, c, self.out_f as int)] == self.weight_at(r, c));
                }
                assert(row =~= self.weight_row(r));
            }
            assert forall|r: int, c: int| 0 <= r < self.in_f && 0 <= c < self.out_f implies #[trigger] w.level(
                r,
                c,
            ) == level_of(self.weight_at(r, c), inverse_scale(w.scales@[r]), level_limit(kind)) by {
                assert(data@[cell(r, c, self.out_f as int)] == self.weight_at(r, c));
            }
        }
        Linear {
            weight: Tensor::vector(Vec::new()),
            bias: Tensor::vector(copy_f32(self.bias.data.as_slice())),
            in_f: self.in_f,
            out_f: self.out_f,
            quant: Some(w),
        }
    }
}

impl Layer for Linear {
    open spec fn wf(&self) -> bool {
        self.fits()
    }

    open spec fn is_refusal(&self, x: Tensor, e: InferError) -> bool {
        ||| not_matrix(x, e)
        ||| x.is_matrix() && e is DimMismatch && (x.shape@[1] != self.in_f || x.shape@[0]
            * self.out_f > usize::MAX)
    }

    open spec fn label(&self) -> Seq<char> {
        "Linear("@ + dec(self.in_f as nat) + "→"@ + dec(self.out_f as nat) + ")"@
    }

    fn name(&self) -> (s: String) {
        let mut s: String = "Linear(".to_owned();
        push_dec(&mut s, self.in_f as u64);
        s.append("→");
        push_dec(&mut s, self.out_f as u64);
        s.append(")");
        s
    }
}

impl<M: Math> Forward<M> for Linear {
    open spec fn is_output(&self, m: &M, x: Tensor, t: Tensor) -> bool {
        self.maps(x, t)
    }

    fn forward(&self, m: &M, input: &Tensor) -> (r: Result<Tensor>) {
        let (rows, cols) = match input.matrix_dims() {
            Ok(d) => d,
            Err(e) => return Err(e),
        };
        if cols != self.in_f {
            return Err(mismatch("Linear expects width ", self.in_f, ", got ", cols));
        }
        match &self.quant {
            Some(w) => qlinear(input, w, self.bias.data.as_slice()),
            None => linear_forward(input, &self.weight, self.bias.data.as_slice()),
        }
    }
}

// ---------------------------------------------------------------------------
// Activation, flatten
// ---------------------------------------------------------------------------

/// An activation as a layer.
#[derive(Clone, Copy, Debug)]
pub struct ActivationLayer {
    pub kind: Activation,
}

impl ActivationLayer {
    /// The layer of an activation.
    pub fn new(kind: Activation) -> (l: Self)
        ensures
            l.kind == kind,
    {
        ActivationLayer { kind }
    }
}

impl Layer for ActivationLayer {
    open spec fn wf(&self) -> bool {
        true
    }

    open spec fn is_refusal(&self, x: Tensor, e: InferError) -> bool {
        self.kind is Softmax && not_matrix(x, e)
    }

    open spec fn label(&self) -> Seq<char> {
        "Activation("@ + self.kind.label() + ")"@
    }

    fn name(&self) -> (s: String) {
        "Activation(".to_owned().concat(self.kind.name()).concat(")")
    }
}

impl<M: Math> Forward<M> for ActivationLayer {
    open spec fn is_output(&self, m: &M, x: Tensor, t: Tensor) -> bool {
        self.kind.is_output(m, x, t)
    }

    fn forward(&self, m: &M, input: &Tensor) -> (r: Result<Tensor>) {
        self.kind.apply(m, input)
    }
}

/// Makes one row of any input.
#[derive(Clone, Copy, Debug)]
pub struct Flatten;

impl Flatten {
    /// The layer.
    pub fn new() -> (l: Self)
        ensures
            l == Flatten,
    {
        Flatten
    }
}

impl Default for Flatten {
    fn default() -> (l: Self)
        ensures
            l == Flatten,
    {
        Flatten
    }
}

impl Layer for Flatten {
    open spec fn wf(&self) -> bool {
        true
    }

    open spec fn is_refusal(&self, x: Tensor, e: InferError) -> bool {
        false
    }

    open spec fn label(&self) -> Seq<char> {
        "Flatten"@
    }

    fn name(&self) -> (s: String) {
        "Flatten".to_owned()
    }
}

impl<M: Math> Forward<M> for Flatten {
    open spec fn is_output(&self, m: &M, x: Tensor, t: Tensor) -> bool {
        t.is_sized(1, x.data@.len() as int) && t.data@ == x.data@
    }

    fn forward(&self, m: &M, input: &Tensor) -> (r: Result<Tensor>) {
        Tensor::row(copy_f32(input.data.as_slice()))
    }
}

// ---------------------------------------------------------------------------
// Layer norm
// ---------------------------------------------------------------------------

/// Bit pattern of 1e-5, added to the variance.
pub const LN_EPS_BITS: u32 = 0x3727_c5ac;

/// Normalisation of each row to mean zero and variance one, then scaled by
/// `gamma` and shifted by `beta`.
#[derive(Clone, Debug)]
pub struct LayerNorm {
    pub gamma: Tensor,
    pub beta: Tensor,
    pub width: usize,
}

/// The mean of a row.
pub open spec fn mean_of(x: Seq<F32>) -> F32 {
    sum_of(x).div_spec(of_int(x.len() as int))
}

/// The squared distances from `mean`.
pub open spec fn squares_of(x: Seq<F32>, mean: F32) -> Seq<F32> {
    x.map_values(|v: F32| v.sub_spec(mean).mul_spec(v.sub_spec(mean)))
}

/// The standard deviation of a row, kept away from zero.
pub open spec fn std_of(x: Seq<F32>) -> F32 {
    sum_of(squares_of(x, mean_of(x))).div_spec(of_int(x.len() as int)).add_spec(
        F32 { bits: LN_EPS_BITS },
    ).sqrt_spec()
}

/// One normalised row.
pub open spec fn norm_row(x: Seq<F32>, gamma: Seq<F32>, beta: Seq<F32>) -> Seq<F32> {
    Seq::new(
        x.len(),
        |c: int|
            x[c].sub_spec(mean_of(x)).div_spec(std_of(x)).mul_spec(gamma[c]).add_spec(beta[c]),
    )
}

fn norm_row_exec(x: &[F32], gamma: &[F32], beta: &[F32]) -> (y: Vec<F32>)
    requires
        gamma@.len() == x@.len(),
        beta@.len() == x@.len(),
    ensures
        y@ == norm_row(x@, gamma@, beta@),
{
    let n: F32 = F32::from_u64(x.len() as u64);
    let mean: F32 = sum(x).div(n);
    let mut squares: Vec<F32> = Vec::with_capacity(x.len());
    let mut i: usize = 0;
    while i < x.len()
        invariant
            i <= x.len(),
            mean == mean_of(x@),
            squares@.len() == i,
            forall|j: int|
                0 <= j < i ==> #[trigger] squares@[j] == x@[j].sub_spec(mean).mul_spec(
                    x@[j].sub_spec(mean),
                ),
        decreases x.len() - i,
    {
        let d: F32 = x[i].sub(mean);
        squares.push(d.mul(d));
        i = i + 1;
    }
    assert(squares@ =~= squares_of(x@, mean));
    let std: F32 = sum(squares.as_slice()).div(n).add(F32 { bits: LN_EPS_BITS }).sqrt();
    let mut y: Vec<F32> = Vec::with_capacity(x.len());
    let mut c: usize = 0;
    while c < x.len()
        invariant
            c <= x.len(),
            gamma@.len() == x@.len(),
            beta@.len() == x@.len(),
            mean == mean_of(x@),
            std == std_of(x@),
            y@.len() == c,
            forall|j: int| 0 <= j < c ==> #[trigger] y@[j] == norm_row(x@, gamma@, beta@)[j],
        decreases x.len() - c,
    {
        y.push(x[c].sub(mean).div(std).mul(gamma[c]).add(beta[c]));
        c = c + 1;
    }
    assert(y@ =~= norm_row(x@, gamma@, beta@));
    y
}

impl LayerNorm {
    /// A layer norm of width `dim`.
    pub fn new(dim: usize, gamma: Vec<F32>, beta: Vec<F32>) -> (r: Result<Self>)
        ensures
            match r {
                Ok(l) => gamma@.len() == dim && beta@.len() == dim && l.wf() && l.width == dim
                    && l.gamma.data@ == gamma@ && l.beta.data@ == beta@,
                Err(e) => (gamma@.len() != dim || beta@.len() != dim) && e is DimMismatch,
            },
    {
        if gamma.len() != dim {
            return Err(mismatch("LayerNorm gamma len ", gamma.len(), " != dim ", dim));
        }
        if beta.len() != dim {
            return Err(mismatch("LayerNorm beta len ", beta.len(), " != dim ", dim));
        }
        Ok(LayerNorm { gamma: Tensor::vector(gamma), beta: Tensor::vector(beta), width: dim })
    }

    /// The width.
    pub fn dim(&self) -> (n: usize)
        ensures
            n == self.width,
    {
        self.width
    }

    /// Whether `t` is `x` with every row normalised.
    pub open spec fn maps(self, x: Tensor, t: Tensor) -> bool {
        &&& x.is_matrix() && x.shape@[1] == self.width
        &&& t.is_sized(x.shape@[0] as int, self.width as int)
        &&& forall|i: int|
            0 <= i < x.shape@[0] ==> #[trigger] row_of(t.data@, i, self.width as int) == norm_row(
                row_of(x.data@, i, self.width as int),
                self.gamma.data@,
                self.beta.data@,
            )
    }
}

impl Layer for LayerNorm {
    open spec fn wf(&self) -> bool {
        self.gamma.data@.len() == self.width && self.beta.data@.len() == self.width
    }

    open spec fn is_refusal(&self, x: Tensor, e: InferError) -> bool {
        ||| not_matrix(x, e)
        ||| x.is_matrix() && x.shape@[1] != self.width && e is DimMismatch
    }

    open spec fn label(&self) -> Seq<char> {
        "LayerNorm("@ + dec(self.width as nat) + ")"@
    }

    fn name(&self) -> (s: String) {
        let mut s: String = "LayerNorm(".to_owned();
        push_dec(&mut s, self.width as u64);
        s.append(")");
        s
    }
}

impl<M: Math> Forward<M> for LayerNorm {
    open spec fn is_output(&self, m: &M, x: Tensor, t: Tensor) -> bool {
        self.maps(x, t)
    }

    fn forward(&self, m: &M, input: &Tensor) -> (r: Result<Tensor>) {
        let (rows, cols) = match input.matrix_dims() {
            Ok(d) => d,
            Err(e) => return Err(e),
        };
        if cols != self.width {
            return Err(mismatch("LayerNorm expects width ", self.width, ", got ", cols));
        }
        let total: usize = input.data.len();
        let mut out: Vec<F32> = Vec::with_capacity(total);
        let mut r: usize = 0;
        while r < rows
            invariant
                r <= rows,
                self.wf(),
                cols == self.width,
                total == input.data@.len(),
                input.data@.len() == rows * cols,
                out@.len() == r * cols,
                forall|i: int|
                    0 <= i < r ==> #[trigger] row_of(out@, i, cols as int) == norm_row(
                        row_of(input.data@, i, cols as int),
                        self.gamma.data@,
                        self.beta.data@,
                    ),
            decreases rows - r,
        {
            proof {
                lemma_row(r as int, rows as int, cols as int);
            }
            let base: usize = r * cols;
            let row: Vec<F32> = norm_row_exec(
                slice_subrange(input.data.as_slice(), base, base + cols),
                self.gamma.data.as_slice(),
                self.beta.data.as_slice(),
            );
            let ghost before = out@;
            append_row(&mut out, row.as_slice());
            proof {
                assert forall|i: int| 0 <= i < r + 1 implies #[trigger] row_of(out@, i, cols as int)
                    == norm_row(
                    row_of(input.data@, i, cols as int),
                    self.gamma.data@,
                    self.beta.data@,
                ) by {
                    if i < r {
                        lemma_row(i, r as int, cols as int);
                        assert(row_of(out@, i, cols as int) =~= row_of(before, i, cols as int));
                    } else {
                        assert(row_of(out@, i, cols as int) =~= row@);
                    }
                }
            }
            r = r + 1;
        }
        Tensor::matrix(rows, cols, out)
    }
}

// ---------------------------------------------------------------------------
// Embedding
// ---------------------------------------------------------------------------

/// Table of token vectors and position vectors.
#[derive(Clone, Debug)]
pub struct Embedding {
    pub token_weight: Tensor,
    pub pos_weight: Tensor,
    pub vocab: usize,
    pub max_seq: usize,
    pub width: usize,
}

/// The token that element `i` names: the nearest integer.
pub open spec fn token_of(data: Seq<F32>, i: int) -> int {
    data[i].round_spec().int_spec(0, usize::MAX as int)
}

/// The length of one sequence in an embedding input.
pub open spec fn seq_len_of(x: Tensor) -> int {
    x.shape@[x.shape@.len() - 1] as int
}

impl Embedding {
    /// The vector of `token` at position `pos`.
    pub open spec fn vector_of(self, token: int, pos: int) -> Seq<F32> {
        Seq::new(
            self.width as nat,
            |d: int|
                self.token_weight.data@[cell(token, d, self.width as int)].add_spec(
                    self.pos_weight.data@[cell(pos, d, self.width as int)],
                ),
        )
    }

    /// Tables of token and position vectors.
    pub fn new(
        vocab_size: usize,
        max_seq_len: usize,
        embedding_dim: usize,
        token_weight: Vec<F32>,
        pos_weight: Vec<F32>,
    ) -> (r: Result<Self>)
        ensures
            match r {
                Ok(l) => {
                    &&& token_weight@.len() == vocab_size * embedding_dim
                    &&& pos_weight@.len() == max_seq_len * embedding_dim
                    &&& l.wf()
                    &&& l.vocab == vocab_size
                    &&& l.max_seq == max_seq_len
                    &&& l.width == embedding_dim
                    &&& l.token_weight.data@ == token_weight@
                    &&& l.pos_weight.data@ == pos_weight@
                },
                Err(e) => {
                    &&& e is ShapeMismatch
                    &&& token_weight@.len() != vocab_size * embedding_dim || pos_weight@.len()
                        != max_seq_len * embedding_dim
                },
            },
    {
        let token_weight: Tensor = match Tensor::matrix(vocab_size, embedding_dim, token_weight) {
            Ok(t) => t,
            Err(e) => return Err(e),
        };
        let pos_weight: Tensor = match Tensor::matrix(max_seq_len, embedding_dim, pos_weight) {
            Ok(t) => t,
            Err(e) => return Err(e),
        };
        Ok(
            Embedding {
                token_weight,
                pos_weight,
                vocab: vocab_size,
                max_seq: max_seq_len,
                width: embedding_dim,
            },
        )
    }

    /// Number of tokens.
    pub fn vocab_size(&self) -> (n: usize)
        ensures
            n == self.vocab,
    {
        self.vocab
    }

    /// Number of positions.
    pub fn max_seq_len(&self) -> (n: usize)
        ensures
            n == self.max_seq,
    {
        self.max_seq
    }

    /// Length of the vectors.
    pub fn embedding_dim(&self) -> (n: usize)
        ensures
            n == self.width,
    {
        self.width
    }

    fn vector(&self, token: usize, pos: usize) -> (v: Vec<F32>)
        requires
            self.wf(),
            token < self.vocab,
            pos < self.max_seq,
        ensures
            v@ == self.vector_of(token as int, pos as int),
    {
        let d: usize = self.width;
        let lt: usize = self.token_weight.data.len();
        let lp: usize = self.pos_weight.data.len();
        proof {
            lemma_row(token as int, self.vocab as int, d as int);
            lemma_row(pos as int, self.max_seq as int, d as int);
        }
        let tok_base: usize = token * d;
        let pos_base: usize = pos * d;
        let mut v: Vec<F32> = Vec::with_capacity(d);
        let mut i: usize = 0;
        while i < d
            invariant
                i <= d == self.width,
                tok_base == token * d,
                pos_base == pos * d,
                tok_base + d <= lt == self.token_weight.data@.len(),
                pos_base + d <= lp == self.pos_weight.data@.len(),
                v@.len() == i,
                forall|j: int|
                    0 <= j < i ==> #[trigger] v@[j] == self.vector_of(token as int, pos as int)[j],
            decreases d - i,
        {
            v.push(self.token_weight.data[tok_base + i].add(self.pos_weight.data[pos_base + i]));
            i = i + 1;
        }
        assert(v@ =~= self.vector_of(token as int, pos as int));
        v
    }

    /// One token at one position, as a row.
    pub fn embed_one(&self, token: usize, pos: usize) -> (r: Result<Tensor>)
        requires
            self.wf(),
        ensures
            match r {
                Ok(t) => token < self.vocab && pos < self.max_seq && t.wf() && t.is_sized(
                    1,
                    self.width as int,
                ) && t.data@ == self.vector_of(token as int, pos as int),
                Err(e) => (token >= self.vocab || pos >= self.max_seq) && e is DimMismatch,
            },
    {
        if token >= self.vocab {
            return Err(mismatch("Token index ", token, " out of bounds for vocab_size ", self.vocab));
        }
        if pos >= self.max_seq {
            return Err(mismatch("Position ", pos, " exceeds max_seq_len ", self.max_seq));
        }
        Tensor::row(self.vector(token, pos))
    }

    /// Whether every element of `x` names a token.
    pub open spec fn knows_all(self, x: Tensor) -> bool {
        forall|i: int| 0 <= i < x.data@.len() ==> #[trigger] token_of(x.data@, i) < self.vocab
    }

    /// Whether `t` holds the vector of every token of `x` at its position.
    pub open spec fn maps(self, x: Tensor, t: Tensor) -> bool {
        &&& 1 <= x.shape@.len() <= 2
        &&& seq_len_of(x) <= self.max_seq
        &&& self.knows_all(x)
        &&& t.is_sized(x.data@.len() as int, self.width as int)
        &&& forall|i: int|
            0 <= i < x.data@.len() ==> #[trigger] row_of(t.data@, i, self.width as int)
                == self.vector_of(token_of(x.data@, i), i % seq_len_of(x))
    }
}

impl Layer for Embedding {
    open spec fn wf(&self) -> bool {
        &&& self.token_weight.data@.len() == self.vocab * self.width
        &&& self.pos_weight.data@.len() == self.max_seq * self.width
    }

    open spec fn is_refusal(&self, x: Tensor, e: InferError) -> bool {
        &&& e is DimMismatch
        &&& {
            ||| x.shape@.len() == 0 || x.shape@.len() > 2
            ||| seq_len_of(x) > self.max_seq
            ||| x.data@.len() * self.width > usize::MAX
            ||| !self.knows_all(x)
        }
    }

    open spec fn label(&self) -> Seq<char> {
        "Embedding(vocab="@ + dec(self.vocab as nat) + ", dim="@ + dec(self.width as nat) + ")"@
    }

    fn name(&self) -> (s: String) {
        let mut s: String = "Embedding(vocab=".to_owned();
        push_dec(&mut s, self.vocab as u64);
        s.append(", dim=");
        push_dec(&mut s, self.width as u64);
        s.append(")");
        s
    }
}

impl<M: Math> Forward<M> for Embedding {
    open spec fn is_output(&self, m: &M, x: Tensor, t: Tensor) -> bool {
        self.maps(x, t)
    }

    fn forward(&self, m: &M, input: &Tensor) -> (r: Result<Tensor>) {
        let rank: usize = input.shape.len();
        if rank == 0 || rank > 2 {
            return Err(
                InferError::DimMismatch("Embedding expects rank-1 or rank-2 inputs".to_owned()),
            );
        }
        let seq_len: usize = input.shape[rank - 1];
        if seq_len > self.max_seq {
            return Err(
                mismatch("Sequence length ", seq_len, " exceeds max_seq_len ", self.max_seq),
            );
        }
        let n: usize = input.data.len();
        let d: usize = self.width;
        let total: usize = match n.checked_mul(d) {
            Some(t) => t,
            None => return Err(mismatch("Embedding output too large: ", n, " by ", d)),
        };
        proof {
            // Elements are there only if sequences are not empty.
            if n > 0 {
                if rank == 1 {
                    crate::tensor::lemma_product_1(input.shape@);
                } else {
                    crate::tensor::lemma_product_2(input.shape@);
                    assert(seq_len != 0) by (nonlinear_arith)
                        requires
                            n == input.shape@[0] * seq_len,
                            n > 0,
                    ;
                }
            }
        }
        let mut out: Vec<F32> = Vec::with_capacity(total);
        let mut i: usize = 0;
        while i < n
            invariant
                i <= n == input.data@.len(),
                self.wf(),
                d == self.width,
                total == n * d,
                n > 0 ==> seq_len > 0,
                seq_len <= self.max_seq,
                seq_len == seq_len_of(*input),
                out@.len() == i * d,
                forall|x: int| 0 <= x < i ==> #[trigger] token_of(input.data@, x) < self.vocab,
                forall|x: int|
                    0 <= x < i ==> #[trigger] row_of(out@, x, d as int) == self.vector_of(
                        token_of(input.data@, x),
                        x % (seq_len as int),
                    ),
            decreases n - i,
        {
            let token: usize = input.data[i].round().to_usize();
            if token >= self.vocab {
                assert(token_of(input.data@, i as int) >= self.vocab);
                return Err(
                    mismatch("Token index ", token, " out of bounds for vocab_size ", self.vocab),
                );
            }
            let pos: usize = i % seq_len;
            let row: Vec<F32> = self.vector(token, pos);
            let ghost before = out@;
            append_row(&mut out, row.as_slice());
            proof {
                lemma_row(i as int, n as int, d as int);
                assert forall|x: int| 0 <= x < i + 1 implies #[trigger] row_of(out@, x, d as int)
                    == self.vector_of(token_of(input.data@, x), x % (seq_len as int)) by {
                    if x < i {
                        lemma_row(x, i as int, d as int);
                        assert(row_of(out@, x, d as int) =~= row_of(before, x, d as int));
                    } else {
                        assert(row_of(out@, x, d as int) =~= row@);
                    }
                }
            }
            i = i + 1;
        }
        Tensor::matrix(n, d, out)
    }
}

/// Embedding a sequence gives, at each position, the row that embedding its
/// token alone gives.
pub proof fn embed_one_is_a_row_of_forward(l: Embedding, x: Tensor, t: Tensor, pos: int)
    requires
        l.maps(x, t),
        x.data@.len() == seq_len_of(x),
        0 <= pos < x.data@.len(),
    ensures
        row_of(t.data@, pos, l.width as int) == l.vector_of(token_of(x.data@, pos), pos),
{
    assert(pos % seq_len_of(x) == pos) by (nonlinear_arith)
        requires
            0 <= pos < seq_len_of(x),
    ;
}

} // verus!
