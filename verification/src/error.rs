use vstd::prelude::*;

verus! {

/// The error kinds of the renaming engine.
///
/// Validation errors (`MissingParameter`, `InvalidParameter`,
/// `UnsupportedTarget`, `SourceNotFound`) are produced before any rename is
/// planned, so no partial mutation can follow from them.  `RenameFailed`
/// carries the path pair whose filesystem rename failed; it aborts the rest
/// of a batch.  `JournalCorrupt` carries the index of the first journal line
/// that does not hold the expected two-path structure.
#[derive(Clone, Debug, PartialEq, Eq)]
pub enum Error {
    /// The source path does not exist.
    SourceNotFound,
    /// A symbolic link was given as the source or requested as the target kind.
    UnsupportedTarget,
    /// A parameter that the configured method needs was not supplied.
    MissingParameter,
    /// A parameter is out of range or holds a disallowed character.
    InvalidParameter,
    /// A filesystem rename failed, with the offending path pair.
    RenameFailed { src: Vec<u8>, dst: Vec<u8> },
    /// No journal is left to undo from.
    NoJournalFound,
    /// A journal line is missing the expected two-path structure.
    JournalCorrupt { line: usize },
    /// Removing a consumed journal or the journal store failed.
    RemoveFailed,
}

impl Error {
    /// A short stable name for the error kind, for reporting.
    pub fn kind_name(&self) -> (r: &'static str)
        ensures
            r@ == self.spec_kind_name(),
    {
        match self {
            Error::SourceNotFound => "source not found",
            Error::UnsupportedTarget => "unsupported target",
            Error::MissingParameter => "missing parameter",
            Error::InvalidParameter => "invalid parameter",
            Error::RenameFailed { .. } => "rename failed",
            Error::NoJournalFound => "no journal found",
            Error::JournalCorrupt { .. } => "journal corrupt",
            Error::RemoveFailed => "remove failed",
        }
    }

    pub open spec fn spec_kind_name(&self) -> Seq<char> {
        match self {
            Error::SourceNotFound => "source not found"@,
            Error::UnsupportedTarget => "unsupported target"@,
            Error::MissingParameter => "missing parameter"@,
            Error::InvalidParameter => "invalid parameter"@,
            Error::RenameFailed { .. } => "rename failed"@,
            Error::NoJournalFound => "no journal found"@,
            Error::JournalCorrupt { .. } => "journal corrupt"@,
            Error::RemoveFailed => "remove failed"@,
        }
    }
}

} // verus!
