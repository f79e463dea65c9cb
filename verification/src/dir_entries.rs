//! The decision, while walking a directory, of what to do with what the
//! next read gave: pass an entry on, skip a failed read (reporting it at a
//! level that depends on the failure), or stop.

use vstd::prelude::*;

verus! {

/// What reading the next entry of a directory, or the metadata of an
/// entry, gave.
#[derive(Debug, PartialEq, Eq, Clone, Copy, Structural)]
pub enum ReadOutcome {
    /// The entry (or its metadata) was read.
    Read,
    /// The read failed because the entry was not found.
    NotFound,
    /// The read failed because permission was denied.
    PermissionDenied,
    /// The read failed for another reason.
    OtherError,
    /// There are no more entries.
    Exhausted,
}

/// What the walk does next.
#[derive(Debug, PartialEq, Eq, Clone, Copy, Structural)]
pub enum Step {
    /// Hand the entry to the caller.
    Yield,
    /// Go on to the next entry, reporting nothing (the entry went away
    /// while the walk was under way).
    Skip,
    /// Go on to the next entry, reporting the failure as information.
    SkipAndInform,
    /// Go on to the next entry, reporting the failure as a warning.
    SkipAndWarn,
    /// End the walk.
    Finish,
}

/// The step that follows `outcome`.
pub open spec fn spec_next_step(outcome: ReadOutcome) -> Step {
    match outcome {
        ReadOutcome::Read => Step::Yield,
        ReadOutcome::NotFound => Step::Skip,
        ReadOutcome::PermissionDenied => Step::SkipAndInform,
        ReadOutcome::OtherError => Step::SkipAndWarn,
        ReadOutcome::Exhausted => Step::Finish,
    }
}

/// The step that follows `outcome`.
pub fn next_step(outcome: ReadOutcome) -> (r: Step)
    ensures
        r == spec_next_step(outcome),
{
    match outcome {
        ReadOutcome::Read => Step::Yield,
        ReadOutcome::NotFound => Step::Skip,
        ReadOutcome::PermissionDenied => Step::SkipAndInform,
        ReadOutcome::OtherError => Step::SkipAndWarn,
        ReadOutcome::Exhausted => Step::Finish,
    }
}

} // verus!
