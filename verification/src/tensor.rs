//! Dense row-major tensors.
use crate::error::{InferError, Result};
use crate::float::F32;
use crate::index::{cell, lemma_cell};
use vstd::prelude::*;

verus! {

/// A dense tensor: the sizes of its axes and its elements in row-major order.
#[derive(Clone, Debug, PartialEq)]
pub struct Tensor {
    pub shape: Vec<usize>,
    pub data: Vec<F32>,
}

/// The product of the sizes.
pub open spec fn product(s: Seq<usize>) -> nat
    decreases s.len(),
{
    if s.len() == 0 {
        1
    } else {
        product(s.drop_last()) * s.last() as nat
    }
}

/// The number, or the largest one that `usize` holds.
pub open spec fn saturate(n: nat) -> usize {
    if n > usize::MAX {
        usize::MAX
    } else {
        n as usize
    }
}

pub proof fn lemma_product_2(s: Seq<usize>)
    requires
        s.len() == 2,
    ensures
        product(s) == s[0] * s[1],
{
    reveal_with_fuel(product, 3);
    assert(s.drop_last().drop_last() =~= Seq::<usize>::empty());
    assert(s.drop_last().last() == s[0]);
    assert(1 * s[0] == s[0]) by (nonlinear_arith);
}

pub proof fn lemma_product_1(s: Seq<usize>)
    requires
        s.len() == 1,
    ensures
        product(s) == s[0],
{
    reveal_with_fuel(product, 2);
    assert(1 * s[0] == s[0]) by (nonlinear_arith);
}

/// Reads a vector anew, element by element.
pub fn copy_f32(v: &[F32]) -> (r: Vec<F32>)
    ensures
        r@ == v@,
{
    let mut r: Vec<F32> = Vec::with_capacity(v.len());
    let mut i: usize = 0;
    while i < v.len()
        invariant
            i <= v.len(),
            r@ == v@.subrange(0, i as int),
        decreases v.len() - i,
    {
        r.push(v[i]);
        proof {
            assert(v@.subrange(0, i + 1) =~= v@.subrange(0, i as int).push(v@[i as int]));
        }
        i = i + 1;
    }
    assert(v@.subrange(0, v@.len() as int) =~= v@);
    r
}

/// Reads a vector of sizes anew.
pub fn copy_sizes(v: &[usize]) -> (r: Vec<usize>)
    ensures
        r@ == v@,
{
    let mut r: Vec<usize> = Vec::with_capacity(v.len());
    let mut i: usize = 0;
    while i < v.len()
        invariant
            i <= v.len(),
            r@ == v@.subrange(0, i as int),
        decreases v.len() - i,
    {
        r.push(v[i]);
        proof {
            assert(v@.subrange(0, i + 1) =~= v@.subrange(0, i as int).push(v@[i as int]));
        }
        i = i + 1;
    }
    assert(v@.subrange(0, v@.len() as int) =~= v@);
    r
}

/// A vector of `n` zeros.
pub fn zeros(n: usize) -> (r: Vec<F32>)
    ensures
        r@ == Seq::new(n as nat, |i: int| F32 { bits: 0 }),
{
    let mut r: Vec<F32> = Vec::with_capacity(n);
    let mut i: usize = 0;
    while i < n
        invariant
            i <= n,
            r@.len() == i,
            forall|j: int| 0 <= j < i ==> r@[j] == (F32 { bits: 0 }),
        decreases n - i,
    {
        r.push(F32 { bits: 0 });
        i = i + 1;
    }
    assert(r@ =~= Seq::new(n as nat, |i: int| F32 { bits: 0 }));
    r
}

/// Whether two lists of sizes are equal.
pub fn same_sizes(a: &[usize], b: &[usize]) -> (r: bool)
    ensures
        r == (a@ == b@),
{
    if a.len() != b.len() {
        return false;
    }
    let mut i: usize = 0;
    while i < a.len()
        invariant
            i <= a.len(),
            a@.len() == b@.len(),
            forall|j: int| 0 <= j < i ==> a@[j] == b@[j],
        decreases a.len() - i,
    {
        if a[i] != b[i] {
            return false;
        }
        i = i + 1;
    }
    assert(a@ =~= b@);
    true
}

/// The product of the sizes, if `usize` holds it.
pub fn element_count(shape: &[usize]) -> (n: Option<usize>)
    ensures
        product(shape@) <= usize::MAX ==> n == Some(product(shape@) as usize),
        product(shape@) > usize::MAX ==> n is None,
{
    // A zero anywhere makes the product zero, whatever the other sizes are.
    let mut n: Option<usize> = Some(1);
    let mut i: usize = 0;
    while i < shape.len()
        invariant
            i <= shape.len(),
            match n {
                Some(v) => product(shape@.subrange(0, i as int)) == v,
                None => product(shape@.subrange(0, i as int)) > usize::MAX,
            },
        decreases shape.len() - i,
    {
        let ghost part = shape@.subrange(0, i as int);
        let d: usize = shape[i];
        proof {
            let next = shape@.subrange(0, i + 1);
            assert(next.drop_last() =~= part);
            assert(product(next) == product(part) * d as nat);
            if d == 0 {
                assert(product(part) * 0 == 0) by (nonlinear_arith);
            } else if product(part) > usize::MAX {
                assert(product(part) * d as nat > usize::MAX) by (nonlinear_arith)
                    requires
                        product(part) > usize::MAX,
                        d >= 1,
                ;
            }
        }
        n = if d == 0 {
            Some(0)
        } else {
            match n {
                Some(v) => v.checked_mul(d),
                None => None,
            }
        };
        i = i + 1;
    }
    assert(shape@.subrange(0, shape@.len() as int) =~= shape@);
    n
}

impl Tensor {
    /// The elements fill the shape.
    pub open spec fn wf(self) -> bool {
        product(self.shape@) == self.data@.len()
    }

    /// Whether the tensor has two axes.
    pub open spec fn is_matrix(self) -> bool {
        self.shape@.len() == 2
    }

    /// The tensor is a whole matrix with the given sizes.
    pub open spec fn is_sized(self, r: int, c: int) -> bool {
        &&& self.shape@.len() == 2
        &&& self.shape@[0] == r
        &&& self.shape@[1] == c
        &&& self.data@.len() == r * c
    }

    /// The element in row `i`, column `j`.
    pub open spec fn at_spec(self, i: int, j: int) -> F32 {
        self.data@[cell(i, j, self.shape@[1] as int)]
    }

    /// A tensor of the given shape.
    pub fn new(shape: Vec<usize>, data: Vec<F32>) -> (r: Result<Tensor>)
        ensures
            match r {
                Ok(t) => product(shape@) == data@.len() && t.shape@ == shape@ && t.data@ == data@,
                Err(e) => product(shape@) != data@.len() && e == (InferError::ShapeMismatch {
                    expected: saturate(product(shape@)),
                    got: data@.len() as usize,
                }),
            },
    {
        let count: Option<usize> = element_count(shape.as_slice());
        match count {
            Some(n) => {
                if n == data.len() {
                    Ok(Tensor { shape, data })
                } else {
                    Err(InferError::ShapeMismatch { expected: n, got: data.len() })
                }
            },
            None => Err(InferError::ShapeMismatch { expected: usize::MAX, got: data.len() }),
        }
    }

    /// A matrix with `rows` rows and `cols` columns.
    pub fn matrix(rows: usize, cols: usize, data: Vec<F32>) -> (r: Result<Tensor>)
        ensures
            match r {
                Ok(t) => rows * cols == data@.len() && t.is_sized(rows as int, cols as int)
                    && t.data@ == data@ && t.wf(),
                Err(e) => rows * cols != data@.len() && e == (InferError::ShapeMismatch {
                    expected: saturate((rows * cols) as nat),
                    got: data@.len() as usize,
                }),
            },
    {
        let mut shape: Vec<usize> = Vec::new();
        shape.push(rows);
        shape.push(cols);
        proof {
            lemma_product_2(shape@);
        }
        Tensor::new(shape, data)
    }

    /// A matrix with one row; never refused.
    pub fn row(data: Vec<F32>) -> (r: Result<Tensor>)
        ensures
            r is Ok,
            r->Ok_0.is_sized(1, data@.len() as int),
            r->Ok_0.data@ == data@,
            r->Ok_0.wf(),
    {
        let n: usize = data.len();
        proof {
            assert(1 * data@.len() == data@.len()) by (nonlinear_arith);
        }
        Tensor::matrix(1, n, data)
    }

    /// A tensor with one axis.
    pub fn vector(data: Vec<F32>) -> (t: Tensor)
        ensures
            t.shape@ == seq![data@.len() as usize],
            t.data@ == data@,
            t.wf(),
    {
        let mut shape: Vec<usize> = Vec::new();
        shape.push(data.len());
        proof {
            lemma_product_1(shape@);
        }
        assert(shape@ =~= seq![data@.len() as usize]);
        Tensor { shape, data }
    }

    /// The number of elements.
    pub fn numel(&self) -> (n: usize)
        ensures
            n == self.data@.len(),
    {
        self.data.len()
    }

    /// Rows and columns of a matrix.
    pub fn matrix_dims(&self) -> (r: Result<(usize, usize)>)
        ensures
            match r {
                Ok(d) => self.is_matrix() && d.0 == self.shape@[0] && d.1 == self.shape@[1],
                Err(e) => !self.is_matrix() && e is NotAMatrix && e->NotAMatrix_0@ == self.shape@,
            },
            self.wf() && self.is_matrix() ==> self.data@.len() == self.shape@[0] * self.shape@[1],
    {
        proof {
            if self.shape@.len() == 2 {
                lemma_product_2(self.shape@);
            }
        }
        if self.shape.len() == 2 {
            Ok((self.shape[0], self.shape[1]))
        } else {
            Err(InferError::NotAMatrix(copy_sizes(self.shape.as_slice())))
        }
    }

    /// The element in row `r`, column `c` of a matrix.
    pub fn at(&self, r: usize, c: usize) -> (v: F32)
        requires
            self.wf(),
            self.is_matrix(),
            r < self.shape@[0],
            c < self.shape@[1],
        ensures
            v == self.at_spec(r as int, c as int),
    {
        let total: usize = self.data.len();
        proof {
            lemma_product_2(self.shape@);
            assert(total == self.shape@[0] * self.shape@[1]);
            lemma_cell(r as int, c as int, self.shape@[0] as int, self.shape@[1] as int);
        }
        let i: usize = r * self.shape[1] + c;
        self.data[i]
    }

    /// The tensor with `f` applied to every element.
    pub fn map<F: Fn(F32) -> F32>(&self, f: F) -> (t: Tensor)
        requires
            forall|x: F32| call_requires(f, (x,)),
        ensures
            t.shape@ == self.shape@,
            t.data@.len() == self.data@.len(),
            forall|i: int|
                0 <= i < self.data@.len() ==> call_ensures(
                    f,
                    (self.data@[i],),
                    #[trigger] t.data@[i],
                ),
    {
        let mut data: Vec<F32> = Vec::with_capacity(self.data.len());
        let mut i: usize = 0;
        while i < self.data.len()
            invariant
                i <= self.data@.len(),
                data@.len() == i,
                forall|x: F32| call_requires(f, (x,)),
                forall|j: int|
                    0 <= j < i ==> call_ensures(f, (self.data@[j],), #[trigger] data@[j]),
            decreases self.data@.len() - i,
        {
            let y: F32 = f(self.data[i]);
            data.push(y);
            i = i + 1;
        }
        Tensor { shape: copy_sizes(self.shape.as_slice()), data }
    }

    /// The same tensor again.
    pub fn duplicate(&self) -> (t: Tensor)
        ensures
            t.shape@ == self.shape@,
            t.data@ == self.data@,
    {
        Tensor { shape: copy_sizes(self.shape.as_slice()), data: copy_f32(self.data.as_slice()) }
    }
}

} // verus!
