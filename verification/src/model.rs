//! Sequential model: an ordered pipeline of layers.
use crate::error::{InferError, Result};
use crate::layer::{ActivationLayer, Embedding, Flatten, Forward, Layer, LayerNorm, Linear};
use crate::math::Math;
use crate::tensor::Tensor;
use crate::text::{dec, push_dec};
use crate::transformer::TransformerBlock;
use vstd::prelude::*;

verus! {

/// Any of the layers.
#[derive(Clone, Debug)]
pub enum AnyLayer {
    Linear(Linear),
    Activation(ActivationLayer),
    Flatten(Flatten),
    LayerNorm(LayerNorm),
    Embedding(Embedding),
    Transformer(TransformerBlock),
}

impl Layer for AnyLayer {
    open spec fn wf(&self) -> bool {
        match self {
            AnyLayer::Linear(l) => l.wf(),
            AnyLayer::Activation(l) => l.wf(),
            AnyLayer::Flatten(l) => l.wf(),
            AnyLayer::LayerNorm(l) => l.wf(),
            AnyLayer::Embedding(l) => l.wf(),
            AnyLayer::Transformer(l) => l.wf(),
        }
    }

    open spec fn is_refusal(&self, x: Tensor, e: InferError) -> bool {
        match self {
            AnyLayer::Linear(l) => l.is_refusal(x, e),
            AnyLayer::Activation(l) => l.is_refusal(x, e),
            AnyLayer::Flatten(l) => l.is_refusal(x, e),
            AnyLayer::LayerNorm(l) => l.is_refusal(x, e),
            AnyLayer::Embedding(l) => l.is_refusal(x, e),
            AnyLayer::Transformer(l) => l.is_refusal(x, e),
        }
    }

    open spec fn label(&self) -> Seq<char> {
        match self {
            AnyLayer::Linear(l) => l.label(),
            AnyLayer::Activation(l) => l.label(),
            AnyLayer::Flatten(l) => l.label(),
            AnyLayer::LayerNorm(l) => l.label(),
            AnyLayer::Embedding(l) => l.label(),
            AnyLayer::Transformer(l) => l.label(),
        }
    }

    fn name(&self) -> (s: String) {
        match self {
            AnyLayer::Linear(l) => l.name(),
            AnyLayer::Activation(l) => l.name(),
            AnyLayer::Flatten(l) => l.name(),
            AnyLayer::LayerNorm(l) => l.name(),
            AnyLayer::Embedding(l) => l.name(),
            AnyLayer::Transformer(l) => l.name(),
        }
    }
}

impl<M: Math> Forward<M> for AnyLayer {
    open spec fn is_output(&self, m: &M, x: Tensor, t: Tensor) -> bool {
        match self {
            AnyLayer::Linear(l) => l.is_output(m, x, t),
            AnyLayer::Activation(l) => l.is_output(m, x, t),
            AnyLayer::Flatten(l) => l.is_output(m, x, t),
            AnyLayer::LayerNorm(l) => l.is_output(m, x, t),
            AnyLayer::Embedding(l) => l.is_output(m, x, t),
            AnyLayer::Transformer(l) => l.is_output(m, x, t),
        }
    }

    fn forward(&self, m: &M, input: &Tensor) -> (r: Result<Tensor>) {
        match self {
            AnyLayer::Linear(l) => l.forward(m, input),
            AnyLayer::Activation(l) => l.forward(m, input),
            AnyLayer::Flatten(l) => l.forward(m, input),
            AnyLayer::LayerNorm(l) => l.forward(m, input),
            AnyLayer::Embedding(l) => l.forward(m, input),
            AnyLayer::Transformer(l) => l.forward(m, input),
        }
    }
}

/// Layers applied one after the other.
#[derive(Clone, Debug)]
pub struct Sequential {
    pub stack: Vec<AnyLayer>,
}

/// Whether the first `n` layers may make `t` of `x`.
pub open spec fn pipes<M: Math>(m: &M, layers: Seq<AnyLayer>, n: nat, x: Tensor, t: Tensor) -> bool
    decreases n,
{
    if n == 0 {
        t.shape@ == x.shape@ && t.data@ == x.data@
    } else {
        exists|mid: Tensor|
            pipes(m, layers, (n - 1) as nat, x, mid) && #[trigger] layers[n - 1].is_output(
                m,
                mid,
                t,
            )
    }
}

/// Whether a run of all layers on `x` may end with the refusal `e`: some layer
/// refuses what those before it made.
pub open spec fn stops<M: Math>(m: &M, layers: Seq<AnyLayer>, x: Tensor, e: InferError) -> bool {
    exists|n: int, mid: Tensor|
        0 <= n < layers.len() && #[trigger] pipes(m, layers, n as nat, x, mid)
            && layers[n].is_refusal(mid, e)
}

/// The lines of a summary for the first `n` layers.
pub open spec fn summary_lines(layers: Seq<AnyLayer>, n: nat) -> Seq<char>
    decreases n,
{
    if n == 0 {
        Seq::empty()
    } else {
        summary_lines(layers, (n - 1) as nat) + "  ["@ + dec((n - 1) as nat) + "] "@ + layers[n
            - 1].label() + "\n"@
    }
}

impl Sequential {
    /// Every layer is in order.
    pub open spec fn wf(self) -> bool {
        forall|i: int| 0 <= i < self.stack@.len() ==> (#[trigger] self.stack@[i]).wf()
    }

    /// A model without layers.
    pub fn new() -> (m: Self)
        ensures
            m.stack@.len() == 0,
            m.wf(),
    {
        Sequential { stack: Vec::new() }
    }

    /// The model with one more layer at its end.
    pub fn with(self, l: AnyLayer) -> (m: Self)
        ensures
            m.stack@ == self.stack@.push(l),
    {
        let mut m: Self = self;
        m.stack.push(l);
        m
    }

    /// Adds a layer at the end.
    pub fn push(&mut self, l: AnyLayer)
        ensures
            final(self).stack@ == old(self).stack@.push(l),
    {
        self.stack.push(l);
    }

    /// Number of layers.
    pub fn len(&self) -> (n: usize)
        ensures
            n == self.stack@.len(),
    {
        self.stack.len()
    }

    /// Whether there is no layer.
    pub fn is_empty(&self) -> (b: bool)
        ensures
            b == (self.stack@.len() == 0),
    {
        self.stack.len() == 0
    }

    /// The layers, in order.
    pub fn layers(&self) -> (s: &[AnyLayer])
        ensures
            s@ == self.stack@,
    {
        self.stack.as_slice()
    }

    /// Applies all layers in order; the first refusal ends the run.
    pub fn forward<M: Math>(&self, m: &M, input: &Tensor) -> (r: Result<Tensor>)
        requires
            self.wf(),
            input.wf(),
        ensures
            match r {
                Ok(t) => t.wf() && pipes(m, self.stack@, self.stack@.len(), *input, t),
                Err(e) => stops(m, self.stack@, *input, e),
            },
    {
        let mut cur: Tensor = input.duplicate();
        let mut i: usize = 0;
        while i < self.stack.len()
            invariant
                i <= self.stack@.len(),
                self.wf(),
                cur.wf(),
                pipes(m, self.stack@, i as nat, *input, cur),
            decreases self.stack@.len() - i,
        {
            match self.stack[i].forward(m, &cur) {
                Ok(t) => {
                    proof {
                        assert(pipes(m, self.stack@, i as nat, *input, cur));
                        let n = (i + 1) as nat;
                        assert((n - 1) as nat == i as nat);
                        assert(self.stack@[n - 1].is_output(m, cur, t));
                        assert(pipes(m, self.stack@, (n - 1) as nat, *input, cur));
                        assert(pipes(m, self.stack@, n, *input, t));
                    }
                    cur = t;
                },
                Err(e) => {
                    proof {
                        let n = i as int;
                        assert(pipes(m, self.stack@, n as nat, *input, cur));
                    }
                    return Err(e);
                },
            }
            i = i + 1;
        }
        Ok(cur)
    }

    /// The text that `summary` returns.
    pub open spec fn summary_spec(self) -> Seq<char> {
        "Sequential ("@ + dec(self.stack@.len()) + " layers)\n"@ + summary_lines(
            self.stack@,
            self.stack@.len(),
        )
    }

    /// A line for the model and one for each layer.
    pub fn summary(&self) -> (s: String)
        ensures
            s@ == self.summary_spec(),
    {
        let mut s: String = "Sequential (".to_owned();
        push_dec(&mut s, self.stack.len() as u64);
        s.append(" layers)\n");
        let ghost head = s@;
        let mut i: usize = 0;
        proof {
            assert(head + summary_lines(self.stack@, 0) =~= head);
        }
        while i < self.stack.len()
            invariant
                i <= self.stack@.len(),
                s@ == head + summary_lines(self.stack@, i as nat),
            decreases self.stack@.len() - i,
        {
            let ghost before = s@;
            s.append("  [");
            push_dec(&mut s, i as u64);
            s.append("] ");
            let name: String = self.stack[i].name();
            s.append(name.as_str());
            s.append("\n");
            proof {
                assert((i + 1 - 1) as nat == i as nat);
                assert(s@ =~= head + summary_lines(self.stack@, (i + 1) as nat));
            }
            i = i + 1;
        }
        s
    }
}

impl Default for Sequential {
    fn default() -> (m: Self)
        ensures
            m.stack@.len() == 0,
            m.wf(),
    {
        Sequential::new()
    }
}

} // verus!
