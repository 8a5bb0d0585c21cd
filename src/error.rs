//! Failure kinds of an override request.
use vstd::prelude::*;

verus! {

/// Why an override request failed.
#[derive(Debug, Clone, Copy, PartialEq, Eq, Structural)]
pub enum PatchError {
    /// No configuration file, or no block for the application in any of them.
    NotFound,
    /// A configuration file could not be parsed.
    ParseFailure,
    /// The file was found but re-reading it did not show the desired state.
    ValidationFailure,
    /// Reading, writing or backing up a file failed.
    IoFailure,
    /// Writing would overwrite a launcher this library does not own.
    RefusedWrite,
    /// An external command exited with a failure status.
    ExternalToolFailure,
}

/// What processing one configuration file showed.
#[derive(Debug, Clone, Copy, PartialEq, Eq, Structural)]
pub struct FileReport {
    /// The file belongs to the application (before or after the write).
    pub matched: bool,
    /// The file, re-read after the write, shows the desired state.
    pub validated: bool,
}

/// The outcome over every file processed: not found when none belonged to
/// the application, a validation failure when none of those validated.
pub open spec fn outcome_spec(reports: Seq<FileReport>) -> Result<(), PatchError> {
    if !(exists|i: int| 0 <= i < reports.len() && reports[i].matched) {
        Err(PatchError::NotFound)
    } else if !(exists|i: int| 0 <= i < reports.len() && reports[i].validated) {
        Err(PatchError::ValidationFailure)
    } else {
        Ok(())
    }
}

/// Combines the per-file reports (see `outcome_spec`).
pub fn overall_outcome(reports: &[FileReport]) -> (r: Result<(), PatchError>)
    ensures
        r == outcome_spec(reports@),
{
    let mut matched = false;
    let mut validated = false;
    let mut i: usize = 0;
    while i < reports.len()
        invariant
            i <= reports@.len(),
            matched == exists|j: int| 0 <= j < i && reports@[j].matched,
            validated == exists|j: int| 0 <= j < i && reports@[j].validated,
        decreases reports@.len() - i,
    {
        matched = matched || reports[i].matched;
        validated = validated || reports[i].validated;
        i += 1;
    }
    if !matched {
        Err(PatchError::NotFound)
    } else if !validated {
        Err(PatchError::ValidationFailure)
    } else {
        Ok(())
    }
}

} // verus!
