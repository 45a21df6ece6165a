use vstd::prelude::*;

verus! {

/// Why a decode attempt failed.
#[derive(Debug, Clone, Copy, PartialEq, Eq, Structural)]
pub enum Error {
    /// No variant of a union matched, an unparsable sentinel was attempted, or bytes were
    /// left over after a sequence that must consume its whole input.
    InvalidInput,
    /// A fixed-width or length-prefixed read needed more input than was available.
    NotEnoughBytes,
    /// A check that a schema declares on a field did not hold.
    AssertionFailed,
}

impl Error {
    /// A short description of the failure.
    pub fn message(&self) -> (r: &'static str)
        ensures
            r@ == match self {
                Error::InvalidInput => "invalid input"@,
                Error::NotEnoughBytes => "not enough bytes"@,
                Error::AssertionFailed => "assertion failed"@,
            },
    {
        proof {
            reveal_strlit("invalid input");
            reveal_strlit("not enough bytes");
            reveal_strlit("assertion failed");
        }
        match self {
            Error::InvalidInput => "invalid input",
            Error::NotEnoughBytes => "not enough bytes",
            Error::AssertionFailed => "assertion failed",
        }
    }
}

} // verus!
