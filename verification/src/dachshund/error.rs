//! The one error type of builders, algorithms and transformers.

use vstd::prelude::*;

verus! {

/// What went wrong in a builder, an algorithm or a transformer, with a
/// message for people.
#[derive(Debug)]
pub enum CLQError {
    /// An input line is malformed: a field is missing or is no integer.
    ParseError(String),
    /// A builder rejected an edge list.
    BuildError(String),
    /// An algorithm was asked to run on a graph it does not accept.
    AlgorithmPrecondition(String),
    /// A numeric routine did not converge or gave a non-finite result.
    NumericError(String),
    /// An input or output stream failed.
    IOError(String),
    /// Anything else.
    Generic(String),
}

/// What a function that can fail returns.
pub type CLQResult<T> = Result<T, CLQError>;

impl CLQError {
    /// The message carried by the error, whatever its kind.
    pub fn message(&self) -> (r: &String)
        ensures
            *r == match *self {
                CLQError::ParseError(m) => m,
                CLQError::BuildError(m) => m,
                CLQError::AlgorithmPrecondition(m) => m,
                CLQError::NumericError(m) => m,
                CLQError::IOError(m) => m,
                CLQError::Generic(m) => m,
            },
    {
        match self {
            CLQError::ParseError(m) => m,
            CLQError::BuildError(m) => m,
            CLQError::AlgorithmPrecondition(m) => m,
            CLQError::NumericError(m) => m,
            CLQError::IOError(m) => m,
            CLQError::Generic(m) => m,
        }
    }
}

} // verus!
