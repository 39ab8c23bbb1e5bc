//! The library's error type. Every failure is either a caller-input problem
//! or an internal-invariant problem; both are reported through this type.

use vstd::prelude::*;

verus! {

/// An error raised by the builders: bad caller input (too few points, a
/// degenerate bounding box) or a violated internal invariant.
#[derive(Debug, Clone, PartialEq, Eq)]
pub enum Error {
    RuntimeError(String),
}

impl Error {
    /// What the message of the error says.
    pub open spec fn spec_message(self) -> Seq<char> {
        match self {
            Error::RuntimeError(m) => m@,
        }
    }

    /// The human-readable message carried by the error.
    pub fn message(&self) -> (r: &String)
        ensures
            r@ == self.spec_message(),
    {
        match self {
            Error::RuntimeError(m) => m,
        }
    }
}

} // verus!
