//! The two ways in which training and generation can refuse their input.

use vstd::prelude::*;

verus! {

/// Why a text could not be learned.
#[derive(Clone, Copy, Debug, PartialEq, Eq, Structural)]
pub enum TrainingError {
    /// The text holds fewer symbols than two windows.
    TooShort,
}

/// Why no text could be generated.
#[derive(Clone, Copy, Debug, PartialEq, Eq, Structural)]
pub enum GenerationError {
    /// The model has not learned a single window yet.
    EmptyModel,
}

impl TrainingError {
    /// The error in words.
    pub fn message(&self) -> (text: String)
        ensures
            text@ == "Text size must be at least 2*ngram size"@,
    {
        "Text size must be at least 2*ngram size".to_owned()
    }
}

impl GenerationError {
    /// The error in words.
    pub fn message(&self) -> (text: String)
        ensures
            text@ == "The model has no windows to start from"@,
    {
        "The model has no windows to start from".to_owned()
    }
}

} // verus!
