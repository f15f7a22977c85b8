//! Why a replacement run cannot start.

use vstd::prelude::*;

verus! {

/// The reason for which a run is refused.
#[derive(Clone, Copy, Debug, PartialEq, Eq, Structural)]
pub enum Error {
    /// No buffer that this machine can address holds the pattern.
    PatternTooLarge,
}

impl Error {
    /// The reason in words.
    pub fn message(&self) -> (text: &'static str)
        ensures
            text@ == "pattern too large"@,
    {
        match self {
            Error::PatternTooLarge => "pattern too large",
        }
    }
}

} // verus!
