use vstd::prelude::*;

verus! {

/// The one way a scanning step can fail.
#[derive(Debug, Clone, Copy, PartialEq, Eq, Structural)]
pub enum Error {
    /// A character was required but the input was exhausted.
    UnexpectedEOF,
}

impl Error {
    /// A short human-readable description of the error.
    pub fn message(&self) -> (r: &'static str)
        ensures
            r@ == "Unexpected EOF"@,
    {
        match self {
            Error::UnexpectedEOF => "Unexpected EOF",
        }
    }
}

} // verus!
