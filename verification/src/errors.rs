//! The error kinds a wave can report.

use vstd::prelude::*;

verus! {

/// What went wrong during a collapse run.
#[derive(Debug, Clone, PartialEq, Eq, Structural)]
pub enum WaveError {
    /// An element lost every candidate during a collapse.
    Contradiction,
    /// The sample was empty, or the chunk size did not divide it.
    InvalidSample,
}

impl WaveError {
    /// A human-readable description of the error.
    pub fn message(&self) -> (s: &'static str)
        ensures
            *self == WaveError::Contradiction ==> s@ == contradiction_text(),
            *self == WaveError::InvalidSample ==> s@ == invalid_sample_text(),
    {
        match self {
            WaveError::Contradiction => "There was a contradiction during a collapse.",
            WaveError::InvalidSample => "The sample provided was invalid. The item_size might not have been a factor or the sample could have been empty.",
        }
    }
}

pub open spec fn contradiction_text() -> Seq<char> {
    "There was a contradiction during a collapse."@
}

pub open spec fn invalid_sample_text() -> Seq<char> {
    "The sample provided was invalid. The item_size might not have been a factor or the sample could have been empty."@
}

} // verus!
