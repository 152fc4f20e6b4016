//! Errors of verified state transitions.
use vstd::prelude::*;

verus! {

/// Why a state transition was refused.
#[derive(Debug)]
pub enum Error {
    /// The transition is invalid, but nobody is provably at fault.
    Soft(String),
    /// The author of the transition is provably at fault: a player acted out of turn, or a
    /// signature does not match.
    Hard(String),
}

impl Error {
    /// Whether the author of the refused transition is provably at fault.
    pub fn is_hard(&self) -> (r: bool)
        ensures
            r == (self is Hard),
    {
        match self {
            Error::Soft(_) => false,
            Error::Hard(_) => true,
        }
    }

    /// The description of the error.
    pub fn into_string(self) -> (r: String)
        ensures
            r == match self {
                Error::Soft(s) => s,
                Error::Hard(s) => s,
            },
    {
        match self {
            Error::Soft(s) => s,
            Error::Hard(s) => s,
        }
    }
}

} // verus!
