use vstd::prelude::*;

verus! {

/// The kind of filesystem entry a batch rename works on.
///
/// Symbolic links are detected so they can be rejected: they are never
/// accepted as rename targets.
#[derive(Clone, Copy, Debug, PartialEq, Eq, Structural)]
pub enum Target {
    Dir,
    File,
    Symlink,
}

} // verus!
