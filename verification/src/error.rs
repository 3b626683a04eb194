//! Why a training call was refused.
use vstd::prelude::*;

verus! {

/// The reasons for which training refuses its input.
#[derive(Debug, Clone, Copy, PartialEq, Eq, Structural)]
pub enum TrainingError {
    /// A sequence of fewer than two symbols holds no transition.
    SequenceTooShort,
    /// A batch without sequences.
    EmptyBatch,
}

impl TrainingError {
    /// A sentence that names the reason.
    pub fn message(&self) -> (text: &'static str)
        ensures
            text@ == (match self {
                TrainingError::SequenceTooShort => "sequence was too short, must contain at least two states"@,
                TrainingError::EmptyBatch => "no sequences in input"@,
            }),
    {
        match self {
            TrainingError::SequenceTooShort => "sequence was too short, must contain at least two states",
            TrainingError::EmptyBatch => "no sequences in input",
        }
    }
}

} // verus!
