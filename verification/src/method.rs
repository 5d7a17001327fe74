use vstd::prelude::*;

verus! {

/// The naming methods a batch rename can use to produce new file stems.
#[derive(Clone, Copy, Debug, PartialEq, Eq, Structural)]
pub enum Method {
    /// A fresh alphanumeric string of a configured length.
    Random,
    /// A freshly generated version-4 UUID in hyphenated form.
    Uuid,
    /// The current local time, fields joined by the configured delimiter.
    Time,
    /// A per-directory sequence number, without padding.
    Num,
    /// A per-directory sequence number, zero-padded to a configured width.
    Znum,
    /// The configured text and the delimiter, put before the original stem.
    Prefix,
    /// The original stem, then the delimiter and the configured text.
    Append,
    /// The original stem with its ASCII letters folded to upper case.
    Uppercase,
    /// The original stem with its ASCII letters folded to lower case.
    Lowercase,
}

} // verus!
