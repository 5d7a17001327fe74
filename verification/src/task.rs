use vstd::prelude::*;

verus! {

/// What a run of the engine is asked to do.
#[derive(Clone, Copy, Debug, PartialEq, Eq, Structural)]
pub enum Task {
    /// Plan and journal a batch of renames.
    Rename,
    /// Replay a journal in reverse to restore original names.
    Undo,
}

} // verus!
