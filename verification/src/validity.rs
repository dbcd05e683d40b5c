//! Checks of values that were put together elsewhere: whether their parts fit.
use crate::decoder::LlamaModel;
use crate::gguf::Gguf;
use crate::gguf_export::layers_fit;
use crate::gguf_meta::{ordered, pairs_of, precedes, text_precedes, MetaTable};
use crate::layer::{Embedding, Layer, LayerNorm, Linear};
use crate::model::{AnyLayer, Sequential};
use crate::normalizer::Normalizer;
use crate::quant::QWeight;
use crate::tensor::{product, Tensor};
use crate::transformer::TransformerBlock;
use vstd::prelude::*;

verus! {

/// Whether `n` is the product of two numbers.
fn is_product(a: usize, b: usize, n: usize) -> (r: bool)
    ensures
        r == (a * b == n),
{
    match a.checked_mul(b) {
        Some(p) => p == n,
        None => false,
    }
}

/// A product without zeros grows with every factor.
proof fn lemma_product_grows(s: Seq<usize>, k: int)
    requires
        0 <= k <= s.len(),
        forall|i: int| 0 <= i < s.len() ==> #[trigger] s[i] != 0,
    ensures
        1 <= product(s.take(k)) <= product(s),
    decreases s.len(),
{
    if s.len() == 0 {
        assert(s.take(k) =~= s);
    } else if k == s.len() {
        assert(s.take(k) =~= s);
        let init = s.drop_last();
        lemma_product_grows(init, k - 1);
        assert(init.take(k - 1) =~= init);
        let p = product(init) as int;
        let d = s.last() as int;
        assert(p * d >= 1) by (nonlinear_arith)
            requires
                p >= 1,
                d >= 1,
        ;
    } else {
        let init = s.drop_last();
        assert(init.take(k) =~= s.take(k));
        lemma_product_grows(init, k);
        let p = product(init) as int;
        let d = s.last() as int;
        assert(p * d >= p) by (nonlinear_arith)
            requires
                p >= 1,
                d >= 1,
        ;
    }
}

/// A product with a zero is zero.
proof fn lemma_product_zero(s: Seq<usize>, k: int)
    requires
        0 <= k < s.len(),
        s[k] == 0,
    ensures
        product(s) == 0,
    decreases s.len(),
{
    let init = s.drop_last();
    if k < init.len() {
        lemma_product_zero(init, k);
    }
    let p = product(init) as int;
    let d = s.last() as int;
    assert(p * d == 0) by (nonlinear_arith)
        requires
            p == 0 || d == 0,
    ;
}

impl Tensor {
    /// Whether there are as many numbers as the shape asks for.
    pub fn is_valid(&self) -> (b: bool)
        ensures
            b == self.wf(),
    {
        let ghost s = self.shape@;
        let mut i: usize = 0;
        while i < self.shape.len()
            invariant
                i <= s.len(),
                s == self.shape@,
                forall|k: int| 0 <= k < i ==> #[trigger] s[k] != 0,
            decreases s.len() - i,
        {
            if self.shape[i] == 0 {
                proof {
                    lemma_product_zero(s, i as int);
                }
                return self.data.len() == 0;
            }
            i = i + 1;
        }
        let mut acc: usize = 1;
        let mut j: usize = 0;
        while j < self.shape.len()
            invariant
                j <= s.len(),
                s == self.shape@,
                acc == product(s.take(j as int)),
                forall|k: int| 0 <= k < s.len() ==> #[trigger] s[k] != 0,
            decreases s.len() - j,
        {
            proof {
                let next = s.take(j + 1);
                assert(next.drop_last() =~= s.take(j as int));
                lemma_product_grows(s, j + 1);
            }
            acc = match acc.checked_mul(self.shape[j]) {
                Some(p) => p,
                None => {
                    let _held: usize = self.data.len();
                    return false;
                },
            };
            j = j + 1;
        }
        assert(s.take(s.len() as int) =~= s);
        acc == self.data.len()
    }
}

impl QWeight {
    /// Whether the scales and the bytes are those of the sizes.
    pub fn is_valid(&self) -> (b: bool)
        ensures
            b == self.wf(),
    {
        self.scales.len() == self.rows && is_product(self.rows, self.row_bytes(), self.q.len())
    }
}

impl Linear {
    /// Whether the sizes agree.
    pub fn is_valid(&self) -> (b: bool)
        ensures
            b == self.fits(),
    {
        if self.bias.data.len() != self.out_f || self.in_f.checked_mul(self.out_f).is_none() {
            return false;
        }
        match &self.quant {
            Some(w) => w.is_valid() && w.rows == self.in_f && w.cols == self.out_f
                && self.weight.data.len() == 0,
            None => self.weight.is_valid() && self.weight.shape.len() == 2 && self.weight.shape[0]
                == self.in_f && self.weight.shape[1] == self.out_f && is_product(
                self.in_f,
                self.out_f,
                self.weight.data.len(),
            ),
        }
    }
}

impl LayerNorm {
    /// Whether the sizes agree.
    pub fn is_valid(&self) -> (b: bool)
        ensures
            b == self.wf(),
    {
        self.gamma.data.len() == self.width && self.beta.data.len() == self.width
    }
}

impl Embedding {
    /// Whether the sizes agree.
    pub fn is_valid(&self) -> (b: bool)
        ensures
            b == self.wf(),
    {
        is_product(self.vocab, self.width, self.token_weight.data.len()) && is_product(
            self.max_seq,
            self.width,
            self.pos_weight.data.len(),
        )
    }
}

impl TransformerBlock {
    /// Whether the sizes agree.
    pub fn is_valid(&self) -> (b: bool)
        ensures
            b == self.fits(),
    {
        let w: usize = self.width;
        self.context > 0 && self.heads > 0 && w % self.heads == 0 && self.ln1.is_valid()
            && self.ln1.width == w && self.ln2.is_valid() && self.ln2.width == w
            && self.q_proj.is_valid() && self.q_proj.in_f == w && self.q_proj.out_f == w
            && self.k_proj.is_valid() && self.k_proj.in_f == w && self.k_proj.out_f == w
            && self.v_proj.is_valid() && self.v_proj.in_f == w && self.v_proj.out_f == w
            && self.out_proj.is_valid() && self.out_proj.in_f == w && self.out_proj.out_f == w
            && self.ffn1.is_valid() && self.ffn1.in_f == w && self.ffn2.is_valid()
            && self.ffn2.in_f == self.ffn1.out_f && self.ffn2.out_f == w
    }
}

impl Sequential {
    /// Whether the sizes of every layer agree.
    pub fn is_valid(&self) -> (b: bool)
        ensures
            b == self.wf(),
    {
        let mut i: usize = 0;
        while i < self.stack.len()
            invariant
                i <= self.stack@.len(),
                forall|k: int| 0 <= k < i ==> (#[trigger] self.stack@[k]).wf(),
            decreases self.stack@.len() - i,
        {
            let fits: bool = match &self.stack[i] {
                AnyLayer::Linear(l) => l.is_valid(),
                AnyLayer::Activation(_) => true,
                AnyLayer::Flatten(_) => true,
                AnyLayer::LayerNorm(l) => l.is_valid(),
                AnyLayer::Embedding(l) => l.is_valid(),
                AnyLayer::Transformer(l) => l.is_valid(),
            };
            assert(fits == self.stack@[i as int].wf());
            if !fits {
                return false;
            }
            i = i + 1;
        }
        true
    }
}

impl Normalizer {
    /// Whether there is a deviation to each mean.
    pub fn is_valid(&self) -> (b: bool)
        ensures
            b == self.wf(),
    {
        self.means.len() == self.stds.len()
    }
}

impl LlamaModel {
    /// Whether the sizes of every layer agree.
    pub fn has_valid_layers(&self) -> (b: bool)
        ensures
            b == layers_fit(*self),
    {
        if !self.lm_head.is_valid() {
            return false;
        }
        let mut i: usize = 0;
        while i < self.blocks.len()
            invariant
                i <= self.blocks@.len(),
                self.lm_head.fits(),
                forall|k: int|
                    0 <= k < i ==> {
                        let b = #[trigger] self.blocks@[k];
                        &&& b.attn.wq.fits() && b.attn.wk.fits() && b.attn.wv.fits()
                            && b.attn.wo.fits()
                        &&& b.ffn.gate.fits() && b.ffn.up.fits() && b.ffn.down.fits()
                    },
            decreases self.blocks@.len() - i,
        {
            let b = &self.blocks[i];
            if !(b.attn.wq.is_valid() && b.attn.wk.is_valid() && b.attn.wv.is_valid()
                && b.attn.wo.is_valid() && b.ffn.gate.is_valid() && b.ffn.up.is_valid()
                && b.ffn.down.is_valid()) {
                assert(!layers_fit(*self)) by {
                    let bad = self.blocks@[i as int];
                }
                return false;
            }
            i = i + 1;
        }
        true
    }
}

impl MetaTable {
    /// Whether the keys stand in increasing order.
    pub fn is_valid(&self) -> (b: bool)
        ensures
            b == self.wf(),
    {
        let ghost pairs = pairs_of(self.entries@);
        let mut j: usize = 0;
        while j < self.entries.len()
            invariant
                j <= self.entries@.len(),
                pairs == pairs_of(self.entries@),
                forall|a: int, b: int|
                    0 <= a < b < j ==> precedes((#[trigger] pairs[a]).0, (#[trigger] pairs[b]).0),
            decreases self.entries@.len() - j,
        {
            let mut i: usize = 0;
            while i < j
                invariant
                    i <= j < self.entries@.len(),
                    pairs == pairs_of(self.entries@),
                    forall|a: int| 0 <= a < i ==> precedes((#[trigger] pairs[a]).0, pairs[j as int].0),
                decreases j - i,
            {
                assert(pairs[i as int].0 == self.entries@[i as int].0@);
                assert(pairs[j as int].0 == self.entries@[j as int].0@);
                if !text_precedes(self.entries[i].0.as_str(), self.entries[j].0.as_str()) {
                    assert(!ordered(pairs));
                    return false;
                }
                i = i + 1;
            }
            j = j + 1;
        }
        true
    }
}

impl Gguf {
    /// Whether the table is in order and the tensor data begins in the file.
    pub fn is_valid(&self) -> (b: bool)
        ensures
            b == self.wf(),
    {
        self.metadata.is_valid() && self.data_offset <= self.bytes.len()
    }
}

} // verus!
