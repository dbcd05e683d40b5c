//! The one error type of the library.
use crate::text::{dec, dec_list, push_dec, push_dec_list};
use vstd::prelude::*;

verus! {

/// Why an operation was refused.
#[derive(Debug, Clone, PartialEq)]
pub enum InferError {
    ShapeMismatch { expected: usize, got: usize },
    DimMismatch(String),
    NotAMatrix(Vec<usize>),
    Io(String),
    Format(String),
    /// A value in a text table could not be read as a number.
    ParseError(String),
}

/// Result of a fallible operation of the library.
pub type Result<T> = std::result::Result<T, InferError>;

impl InferError {
    /// The message for people.
    pub open spec fn message(self) -> Seq<char> {
        match self {
            InferError::ShapeMismatch { expected, got } => "shape mismatch: expected "@ + dec(
                expected as nat,
            ) + " elements, got "@ + dec(got as nat),
            InferError::DimMismatch(m) => "dimension mismatch: "@ + m@,
            InferError::NotAMatrix(s) => "expected rank-2 tensor, got shape ["@ + dec_list(s@)
                + "]"@,
            InferError::Io(m) => "i/o error: "@ + m@,
            InferError::Format(m) => "model format error: "@ + m@,
            InferError::ParseError(m) => "parse error: "@ + m@,
        }
    }

    /// The message for people.
    pub fn to_string(&self) -> (s: String)
        ensures
            s@ == self.message(),
    {
        match self {
            InferError::ShapeMismatch { expected, got } => {
                let mut s: String = "shape mismatch: expected ".to_owned();
                push_dec(&mut s, *expected as u64);
                s.append(" elements, got ");
                push_dec(&mut s, *got as u64);
                s
            },
            InferError::DimMismatch(m) => "dimension mismatch: ".to_owned().concat(m.as_str()),
            InferError::NotAMatrix(shape) => {
                let mut s: String = "expected rank-2 tensor, got shape [".to_owned();
                push_dec_list(&mut s, shape.as_slice());
                s.append("]");
                s
            },
            InferError::Io(m) => "i/o error: ".to_owned().concat(m.as_str()),
            InferError::Format(m) => "model format error: ".to_owned().concat(m.as_str()),
            InferError::ParseError(m) => "parse error: ".to_owned().concat(m.as_str()),
        }
    }
}

/// `std::io::Error`, carried as it is.
#[verifier::external_type_specification]
#[verifier::external_body]
pub struct ExIoError(std::io::Error);

/// `std::num::ParseFloatError`, carried as it is.
#[verifier::external_type_specification]
#[verifier::external_body]
pub struct ExParseFloatError(std::num::ParseFloatError);

/// The text that `std::io::Error` displays; nothing is claimed of it.
#[verifier::external_body]
fn io_error_text(e: &std::io::Error) -> String {
    e.to_string()
}

/// The text that `std::num::ParseFloatError` displays; nothing is claimed of it.
#[verifier::external_body]
fn parse_error_text(e: &std::num::ParseFloatError) -> String {
    e.to_string()
}

impl vstd::std_specs::convert::FromSpecImpl<std::io::Error> for InferError {
    open spec fn obeys_from_spec() -> bool {
        false
    }

    open spec fn from_spec(e: std::io::Error) -> InferError {
        arbitrary()
    }
}

impl From<std::io::Error> for InferError {
    fn from(e: std::io::Error) -> (r: Self)
        ensures
            r is Io,
    {
        InferError::Io(io_error_text(&e))
    }
}

impl vstd::std_specs::convert::FromSpecImpl<std::num::ParseFloatError> for InferError {
    open spec fn obeys_from_spec() -> bool {
        false
    }

    open spec fn from_spec(e: std::num::ParseFloatError) -> InferError {
        arbitrary()
    }
}

impl From<std::num::ParseFloatError> for InferError {
    fn from(e: std::num::ParseFloatError) -> (r: Self)
        ensures
            r is ParseError,
    {
        InferError::ParseError(parse_error_text(&e))
    }
}

} // verus!
