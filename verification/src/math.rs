//! The elementary functions that no exact rounding rule pins down.
use crate::float::F32;
use vstd::prelude::*;

verus! {

/// Supplier of elementary functions. Nothing is assumed of what its methods
/// return: contracts that depend on one speak of any value that the method may
/// have returned, through `call_ensures`.
pub trait Math {
    /// e to the power `x`.
    fn exp(&self, x: F32) -> F32;

    /// The natural logarithm.
    fn ln(&self, x: F32) -> F32;

    /// The hyperbolic tangent.
    fn tanh(&self, x: F32) -> F32;

    /// The sine of an angle in radians.
    fn sin(&self, x: F32) -> F32;

    /// The cosine of an angle in radians.
    fn cos(&self, x: F32) -> F32;

    /// `x` to a whole power.
    fn powi(&self, x: F32, n: i32) -> F32;

    /// `base` to the power `-2 * i / dim`.
    fn inv_freq(&self, base: F32, i: usize, dim: usize) -> F32;

    /// The Euclidean norm, accumulated in wider precision.
    fn norm(&self, v: &Vec<F32>) -> F32;
}

/// `y` is a value that `m` may return for e to the power `x`.
pub open spec fn is_exp<M: Math>(m: &M, x: F32, y: F32) -> bool {
    call_ensures(M::exp, (m, x), y)
}

/// `y` is a value that `m` may return for the natural logarithm of `x`.
pub open spec fn is_ln<M: Math>(m: &M, x: F32, y: F32) -> bool {
    call_ensures(M::ln, (m, x), y)
}

/// `y` is a value that `m` may return for the hyperbolic tangent of `x`.
pub open spec fn is_tanh<M: Math>(m: &M, x: F32, y: F32) -> bool {
    call_ensures(M::tanh, (m, x), y)
}

/// `y` is a value that `m` may return for the sine of `x`.
pub open spec fn is_sin<M: Math>(m: &M, x: F32, y: F32) -> bool {
    call_ensures(M::sin, (m, x), y)
}

/// `y` is a value that `m` may return for the cosine of `x`.
pub open spec fn is_cos<M: Math>(m: &M, x: F32, y: F32) -> bool {
    call_ensures(M::cos, (m, x), y)
}

/// `y` is a value that `m` may return for `x` to the power `n`.
pub open spec fn is_powi<M: Math>(m: &M, x: F32, n: i32, y: F32) -> bool {
    call_ensures(M::powi, (m, x, n), y)
}

/// `y` is a value that `m` may return for the frequency of pair `i`.
pub open spec fn is_inv_freq<M: Math>(m: &M, base: F32, i: usize, dim: usize, y: F32) -> bool {
    call_ensures(M::inv_freq, (m, base, i, dim), y)
}

/// `y` is a value that `m` may return for the norm of `v`.
pub open spec fn is_norm<M: Math>(m: &M, v: Vec<F32>, y: F32) -> bool {
    call_ensures(M::norm, (m, &v), y)
}

} // verus!
