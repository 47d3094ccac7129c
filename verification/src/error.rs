//! The ways in which a request can be refused.

use vstd::prelude::*;

verus! {

/// Why an operation refused its input.
#[derive(Clone, Copy, Debug, PartialEq, Eq, Structural)]
pub enum AudioError {
    /// The buffer is shorter than pitch detection needs.
    InsufficientSamples,
    /// The correction strength lies outside zero to one.
    InvalidParameter,
    /// The buffer to correct holds no sample.
    EmptyBuffer,
}

impl AudioError {
    /// The text shown for this error.
    pub open spec fn text(self) -> Seq<char> {
        match self {
            AudioError::InsufficientSamples => "Buffer too small for pitch detection"@,
            AudioError::InvalidParameter => "Strength must be between 0.0 and 1.0"@,
            AudioError::EmptyBuffer => "Empty buffer"@,
        }
    }

    /// A description of the error for people.
    pub fn message(&self) -> (s: String)
        ensures
            s@ == self.text(),
    {
        match self {
            AudioError::InsufficientSamples => "Buffer too small for pitch detection".to_owned(),
            AudioError::InvalidParameter => "Strength must be between 0.0 and 1.0".to_owned(),
            AudioError::EmptyBuffer => "Empty buffer".to_owned(),
        }
    }
}

} // verus!
