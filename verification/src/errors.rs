use vstd::prelude::*;

verus! {

/// The failure taxonomy of the solver.
///
/// `SourceUnavailable` and `MalformedRecord` describe problems with the
/// point source and are produced by the surrounding I/O layer;
/// `DegenerateInput` rejects point sets for which no tour exists;
/// `InvariantViolation` reports an internal inconsistency detected by a
/// construction stage (for example a walk that does not cover every
/// vertex), which indicates an algorithmic defect rather than bad input.
#[derive(Clone, Copy, Debug, PartialEq, Eq, Structural)]
pub enum TspError {
    SourceUnavailable,
    MalformedRecord,
    DegenerateInput,
    InvariantViolation,
}

} // verus!
