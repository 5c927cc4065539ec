//! The error type of the parser.
use vstd::prelude::*;

verus! {

/// Error type of the parsing functions: a human-readable description of
/// what went wrong, most of the time with the position where it happened.
#[derive(Debug, PartialEq, Eq)]
pub struct FuzJsonParseError(pub String);

/// Result type of the parser, with [`FuzJsonParseError`] as its error.
pub type Result<T> = std::result::Result<T, FuzJsonParseError>;

impl FuzJsonParseError {
    /// The description carried by the error.
    pub fn message(&self) -> (r: &str)
        ensures
            r@ == self.0@,
    {
        self.0.as_str()
    }
}

/// An error with the given description.
impl From<String> for FuzJsonParseError {
    fn from(message: String) -> (r: FuzJsonParseError) {
        FuzJsonParseError(message)
    }
}

impl vstd::std_specs::convert::FromSpecImpl<String> for FuzJsonParseError {
    open spec fn obeys_from_spec() -> bool {
        true
    }

    open spec fn from_spec(message: String) -> FuzJsonParseError {
        FuzJsonParseError(message)
    }
}

} // verus!
