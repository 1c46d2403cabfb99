//! The error of the crate.

use vstd::prelude::*;

verus! {

/// Why a call was refused.
#[derive(Debug, Clone, Copy, PartialEq, Eq, Hash, Structural)]
pub enum NgramError {
    /// The window width `n` was zero.
    InvalidArgument,
}

impl NgramError {
    /// The error in words.
    pub fn message(&self) -> (m: &'static str)
        ensures
            m@ == "n must be >= 1"@,
    {
        match self {
            NgramError::InvalidArgument => "n must be >= 1",
        }
    }
}

} // verus!
