//! Numbers in decimal text.
use crate::float::F32;
use crate::text::string_of;
use vstd::prelude::*;

verus! {

/// Supplier of decimal numbers in text. Nothing is assumed of what its methods
/// return: contracts that depend on one speak of any value that the method may
/// have returned, through `call_ensures`.
pub trait Decimals {
    /// The number that a text stands for, if it is one.
    fn parse(&self, text: &String) -> Option<F32>;

    /// A number with so many digits behind the point.
    fn fixed(&self, x: F32, digits: usize) -> String;
}

/// `r` is a value that `d` may return for the number that `s` stands for.
pub open spec fn is_parse<D: Decimals>(d: &D, s: Seq<char>, r: Option<F32>) -> bool {
    exists|t: String| t@ == s && #[trigger] call_ensures(D::parse, (d, &t), r)
}

/// `s` is a text that `d` may return for a number with so many digits behind the
/// point.
pub open spec fn is_fixed<D: Decimals>(d: &D, x: F32, digits: usize, s: Seq<char>) -> bool {
    exists|t: String| t@ == s && #[trigger] call_ensures(D::fixed, (d, x, digits), t)
}

/// The number that a text stands for, if it is one.
pub(crate) fn parse_chars<D: Decimals>(d: &D, s: &[char]) -> (r: Option<F32>)
    ensures
        is_parse(d, s@, r),
{
    let t: String = string_of(s);
    let r: Option<F32> = d.parse(&t);
    assert(t@ == s@ && call_ensures(D::parse, (d, &t), r));
    r
}

/// A number with so many digits behind the point.
pub(crate) fn fixed_text<D: Decimals>(d: &D, x: F32, digits: usize) -> (s: String)
    ensures
        is_fixed(d, x, digits, s@),
{
    let t: String = d.fixed(x, digits);
    assert(t@ == t@ && call_ensures(D::fixed, (d, x, digits), t));
    t
}

} // verus!
