//! Activation functions as a serialisable enum.
use crate::error::Result;
use crate::float::F32;
use crate::math::{is_exp, is_tanh, Math};
use crate::ops::{is_softmax, not_matrix, row_of, softmax_rows};
use crate::tensor::{copy_sizes, Tensor};
use vstd::prelude::*;

verus! {

/// An activation function.
#[derive(Clone, Copy, Debug, PartialEq, Eq, Structural)]
pub enum Activation {
    Identity,
    ReLU,
    Sigmoid,
    Tanh,
    Softmax,
    /// `x * sigmoid(x)`, which gates SwiGLU feed-forward blocks.
    SiLU,
}

/// One.
pub open spec fn one() -> F32 {
    F32 { bits: 0x3f80_0000 }
}

/// `x` where it is positive, zero elsewhere.
pub open spec fn relu_of(x: F32) -> F32 {
    x.max_spec(F32 { bits: 0 })
}

/// `y` is `1 / (1 + exp(-x))`.
pub open spec fn is_sigmoid<M: Math>(m: &M, x: F32, y: F32) -> bool {
    exists|e: F32| is_exp(m, x.negated(), e) && y == one().div_spec(one().add_spec(e))
}

/// `y` is `x / (1 + exp(-x))`.
pub open spec fn is_silu<M: Math>(m: &M, x: F32, y: F32) -> bool {
    exists|e: F32| is_exp(m, x.negated(), e) && y == x.div_spec(one().add_spec(e))
}

/// `1 / (1 + exp(-x))`.
pub fn sigmoid<M: Math>(m: &M, x: F32) -> (y: F32)
    ensures
        is_sigmoid(m, x, y),
{
    let a: F32 = x.neg();
    let e: F32 = m.exp(a);
    assert(is_exp(m, x.negated(), e));
    F32::one().div(F32::one().add(e))
}

/// `x / (1 + exp(-x))`.
pub fn silu<M: Math>(m: &M, x: F32) -> (y: F32)
    ensures
        is_silu(m, x, y),
{
    let a: F32 = x.neg();
    let e: F32 = m.exp(a);
    assert(is_exp(m, x.negated(), e));
    x.div(F32::one().add(e))
}

impl Activation {
    /// Whether `y` is what the activation makes of the element `x`.
    pub open spec fn is_element<M: Math>(self, m: &M, x: F32, y: F32) -> bool {
        match self {
            Activation::Identity => y == x,
            Activation::ReLU => y == relu_of(x),
            Activation::Sigmoid => is_sigmoid(m, x, y),
            Activation::Tanh => is_tanh(m, x, y),
            Activation::SiLU => is_silu(m, x, y),
            Activation::Softmax => false,
        }
    }

    /// Whether `t` is what the activation makes of `x`: softmax row by row, the
    /// others element by element.
    pub open spec fn is_output<M: Math>(self, m: &M, x: Tensor, t: Tensor) -> bool {
        &&& t.shape@ == x.shape@
        &&& t.data@.len() == x.data@.len()
        &&& self is Softmax ==> {
            &&& x.is_matrix()
            &&& forall|i: int|
                0 <= i < x.shape@[0] ==> is_softmax(
                    m,
                    #[trigger] row_of(x.data@, i, x.shape@[1] as int),
                    row_of(t.data@, i, x.shape@[1] as int),
                )
        }
        &&& !(self is Softmax) ==> forall|i: int|
            0 <= i < x.data@.len() ==> self.is_element(m, x.data@[i], #[trigger] t.data@[i])
    }

    /// Applies the activation. Only softmax of a tensor without two axes is
    /// refused.
    pub fn apply<M: Math>(&self, m: &M, input: &Tensor) -> (r: Result<Tensor>)
        requires
            input.wf(),
        ensures
            match r {
                Ok(t) => t.wf() && self.is_output(m, *input, t),
                Err(e) => self is Softmax && not_matrix(*input, e),
            },
    {
        if matches!(self, Activation::Softmax) {
            let r: Result<Tensor> = softmax_rows(m, input);
            proof {
                if r is Ok {
                    assert(r->Ok_0.shape@ =~= input.shape@);
                }
            }
            return r;
        }
        let mut data: Vec<F32> = Vec::with_capacity(input.data.len());
        let mut i: usize = 0;
        while i < input.data.len()
            invariant
                !(self is Softmax),
                i <= input.data@.len(),
                data@.len() == i,
                forall|j: int|
                    0 <= j < i ==> self.is_element(m, input.data@[j], #[trigger] data@[j]),
            decreases input.data@.len() - i,
        {
            let x: F32 = input.data[i];
            let y: F32 = match self {
                Activation::ReLU => x.max(F32::zero()),
                Activation::Sigmoid => sigmoid(m, x),
                Activation::Tanh => m.tanh(x),
                Activation::SiLU => silu(m, x),
                _ => x,
            };
            assert(self.is_element(m, x, y));
            data.push(y);
            i = i + 1;
        }
        Ok(Tensor { shape: copy_sizes(input.shape.as_slice()), data })
    }

    /// The number that stands for the activation in a model file.
    pub open spec fn tag_spec(self) -> u8 {
        match self {
            Activation::Identity => 0,
            Activation::ReLU => 1,
            Activation::Sigmoid => 2,
            Activation::Tanh => 3,
            Activation::Softmax => 4,
            Activation::SiLU => 5,
        }
    }

    /// The number that stands for the activation in a model file.
    pub fn tag(&self) -> (t: u8)
        ensures
            t == self.tag_spec(),
    {
        match self {
            Activation::Identity => 0,
            Activation::ReLU => 1,
            Activation::Sigmoid => 2,
            Activation::Tanh => 3,
            Activation::Softmax => 4,
            Activation::SiLU => 5,
        }
    }

    /// The activation with the given number.
    pub open spec fn of_tag(t: u8) -> Option<Activation> {
        if t == 0 {
            Some(Activation::Identity)
        } else if t == 1 {
            Some(Activation::ReLU)
        } else if t == 2 {
            Some(Activation::Sigmoid)
        } else if t == 3 {
            Some(Activation::Tanh)
        } else if t == 4 {
            Some(Activation::Softmax)
        } else if t == 5 {
            Some(Activation::SiLU)
        } else {
            None
        }
    }

    /// The activation with the given number, if there is one.
    pub fn from_tag(t: u8) -> (r: Option<Self>)
        ensures
            r == Activation::of_tag(t),
    {
        match t {
            0 => Some(Activation::Identity),
            1 => Some(Activation::ReLU),
            2 => Some(Activation::Sigmoid),
            3 => Some(Activation::Tanh),
            4 => Some(Activation::Softmax),
            5 => Some(Activation::SiLU),
            _ => None,
        }
    }

    /// The name of the variant.
    pub open spec fn label(self) -> Seq<char> {
        match self {
            Activation::Identity => "Identity"@,
            Activation::ReLU => "ReLU"@,
            Activation::Sigmoid => "Sigmoid"@,
            Activation::Tanh => "Tanh"@,
            Activation::Softmax => "Softmax"@,
            Activation::SiLU => "SiLU"@,
        }
    }

    /// The name of the variant.
    pub fn name(&self) -> (s: &'static str)
        ensures
            s@ == self.label(),
    {
        match self {
            Activation::Identity => "Identity",
            Activation::ReLU => "ReLU",
            Activation::Sigmoid => "Sigmoid",
            Activation::Tanh => "Tanh",
            Activation::Softmax => "Softmax",
            Activation::SiLU => "SiLU",
        }
    }
}

/// Every activation is read back from its number, and no other number is read.
pub proof fn tags_round_trip(a: Activation, t: u8)
    ensures
        Activation::of_tag(a.tag_spec()) == Some(a),
        Activation::of_tag(t) is Some ==> Activation::of_tag(t)->0.tag_spec() == t,
{
}

} // verus!
