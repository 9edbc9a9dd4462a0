//! The ways an analysis can fail.

use vstd::prelude::*;

verus! {

/// Why a circuit, or a directory of circuits, could not be analysed.
#[derive(Clone, Copy, Debug, PartialEq, Eq)]
pub enum AnalysisError {
    /// The record file could not be opened or read.
    FileReadFailure,
    /// The record is not well-formed JSON.
    DecodeFailure,
    /// The batch target is missing or is not a directory.
    NotADirectory,
}

impl AnalysisError {
    /// The words for each error.
    pub open spec fn description(self) -> Seq<char> {
        match self {
            AnalysisError::FileReadFailure => "Failed to read circuit file"@,
            AnalysisError::DecodeFailure => "Failed to parse JSON"@,
            AnalysisError::NotADirectory => "Directory not found or is not a directory"@,
        }
    }

    /// A sentence that says what went wrong.
    pub fn message(&self) -> (text: String)
        ensures
            text@ == self.description(),
    {
        match self {
            AnalysisError::FileReadFailure => "Failed to read circuit file".to_owned(),
            AnalysisError::DecodeFailure => "Failed to parse JSON".to_owned(),
            AnalysisError::NotADirectory => "Directory not found or is not a directory".to_owned(),
        }
    }
}

} // verus!
