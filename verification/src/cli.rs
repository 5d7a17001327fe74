//! The resolved configuration of a run, and its validation.
//!
//! A `Cli` value arrives fully resolved from the caller (flags or any other
//! configuration source); the engine only reads it.  Validation happens
//! before any rename is planned: a missing method parameter, an
//! out-of-range number or a disallowed character fails the run with no
//! mutation planned.

use vstd::prelude::*;
use vstd::utf8::encode_utf8;
use crate::bytes::{spec_b62, spec_dec, b62_bytes, dec_bytes};
use crate::error::Error;
use crate::method::Method;
use crate::target::Target;
use crate::task::Task;

verus! {

/// The largest accepted width for `nbits`.
pub const BIT_MAX: usize = 20;

/// The fully resolved parameter set of one run.
#[derive(Clone, Debug)]
pub struct Cli {
    /// The source path, as given by the caller.
    pub input: String,
    /// What kind of entry to rename.
    pub target: Option<Target>,
    /// What to do: rename, or undo from a journal.
    pub task: Option<Task>,
    /// How new names are generated.
    pub method: Option<Method>,
    /// Whether to descend below the first level.
    pub recursive: Option<bool>,
    /// The deepest level to touch when descending; `None` is unlimited.
    pub depth: Option<usize>,
    /// The width of generated names: the length of a random stem, or the
    /// zero-padded width of a numbered stem.
    pub nbits: Option<usize>,
    /// The first sequence number a directory counter hands out.
    pub start: Option<usize>,
    /// The literal text the `Prefix` and `Append` methods add.
    pub with: Option<String>,
    /// The text put between joined name parts.
    pub delimiter: Option<String>,
    /// When set, files sharing a stem are renamed independently.
    pub indiscriminate: bool,
    /// When set, the caller does not ask for confirmation.
    pub yes: bool,
}

/// The bytes of a configuration string.
pub open spec fn str_bytes(s: String) -> Seq<u8> {
    encode_utf8(s@)
}

/// The mathematical value of a configuration: each string parameter as its
/// bytes, everything else as it stands.
pub ghost struct CfgV {
    pub target: Option<Target>,
    pub task: Option<Task>,
    pub method: Option<Method>,
    pub recursive: Option<bool>,
    pub depth: Option<usize>,
    pub nbits: Option<usize>,
    pub start: Option<usize>,
    pub with: Option<Seq<u8>>,
    pub delimiter: Option<Seq<u8>>,
    pub indiscriminate: bool,
}

impl View for Cli {
    type V = CfgV;

    open spec fn view(&self) -> CfgV {
        CfgV {
            target: self.target,
            task: self.task,
            method: self.method,
            recursive: self.recursive,
            depth: self.depth,
            nbits: self.nbits,
            start: self.start,
            with: match self.with {
                Some(w) => Some(str_bytes(w)),
                None => None,
            },
            delimiter: match self.delimiter {
                Some(d) => Some(str_bytes(d)),
                None => None,
            },
            indiscriminate: self.indiscriminate,
        }
    }
}

/// The same configuration with the target kind resolved.
pub open spec fn with_target(cfg: CfgV, k: Target) -> CfgV {
    CfgV { target: Some(k), ..cfg }
}

/// A byte disallowed in delimiters and literal text: one of `<>:/"|?*` and
/// the two quote characters.
pub open spec fn is_invalid_byte(b: u8) -> bool {
    b == 60 || b == 62 || b == 58 || b == 47 || b == 34 || b == 124 || b == 63 || b == 42
        || b == 39 || b == 96
}

pub open spec fn has_invalid_byte(s: Seq<u8>) -> bool {
    exists|i: int| 0 <= i < s.len() && is_invalid_byte(#[trigger] s[i])
}

/// Whether a configuration string holds a disallowed byte.
pub fn string_has_invalid(s: &String) -> (r: bool)
    ensures
        r == has_invalid_byte(str_bytes(*s)),
{
    let b = s.as_str().as_bytes();
    let mut i: usize = 0;
    while i < b.len()
        invariant
            0 <= i <= b@.len(),
            b@ == str_bytes(*s),
            forall|j: int| 0 <= j < i ==> !is_invalid_byte(#[trigger] b@[j]),
        decreases b@.len() - i,
    {
        let c = b[i];
        if c == 60 || c == 62 || c == 58 || c == 47 || c == 34 || c == 124 || c == 63
            || c == 42 || c == 39 || c == 96 {
            return true;
        }
        i += 1;
    }
    false
}

/// The bytes of a configuration string, as a vector.
pub fn str_to_bytes(s: &String) -> (r: Vec<u8>)
    ensures
        r@ == str_bytes(*s),
{
    vstd::slice::slice_to_vec(s.as_str().as_bytes())
}

/// What the source path is, from the facts the caller read off the
/// filesystem: absent sources fail, anything else is classified.
pub open spec fn spec_check_source(exists: bool, is_symlink: bool, is_file: bool) -> Result<
    Target,
    Error,
> {
    if !exists {
        Err(Error::SourceNotFound)
    } else if is_symlink {
        Ok(Target::Symlink)
    } else if is_file {
        Ok(Target::File)
    } else {
        Ok(Target::Dir)
    }
}

/// The first validation failure of a configuration, for a batch of
/// `ntotal` candidates; `None` when the configuration is valid.
///
/// `Random` and `Znum` need a width no smaller than the largest name the
/// batch can produce and no larger than `BIT_MAX`; `Num` and `Znum` need a
/// positive start whose counters stay within machine range over the batch;
/// `Time`, `Prefix` and `Append` need their delimiter and text free of
/// disallowed bytes.
pub open spec fn spec_validate(cfg: CfgV, ntotal: nat) -> Option<Error> {
    if cfg.method is None {
        Some(Error::MissingParameter)
    } else {
        match cfg.method->0 {
            Method::Random => {
                if cfg.nbits is None {
                    Some(Error::MissingParameter)
                } else if !(spec_b62(ntotal).len() <= cfg.nbits->0 <= BIT_MAX) {
                    Some(Error::InvalidParameter)
                } else {
                    None
                }
            }
            Method::Uuid => None,
            Method::Time => {
                if cfg.delimiter is None {
                    Some(Error::MissingParameter)
                } else if has_invalid_byte(cfg.delimiter->0) {
                    Some(Error::InvalidParameter)
                } else {
                    None
                }
            }
            Method::Num => {
                if cfg.start is None {
                    Some(Error::MissingParameter)
                } else if cfg.start->0 < 1 {
                    Some(Error::InvalidParameter)
                } else if cfg.start->0 + ntotal > usize::MAX {
                    Some(Error::InvalidParameter)
                } else {
                    None
                }
            }
            Method::Znum => {
                if cfg.start is None || cfg.nbits is None {
                    Some(Error::MissingParameter)
                } else if cfg.start->0 < 1 {
                    Some(Error::InvalidParameter)
                } else if cfg.start->0 + ntotal > usize::MAX {
                    Some(Error::InvalidParameter)
                } else if !(spec_dec((ntotal + cfg.start->0) as nat).len() <= cfg.nbits->0
                    <= BIT_MAX) {
                    Some(Error::InvalidParameter)
                } else {
                    None
                }
            }
            Method::Uppercase | Method::Lowercase => None,
            Method::Prefix | Method::Append => {
                if cfg.delimiter is None || cfg.with is None {
                    Some(Error::MissingParameter)
                } else if has_invalid_byte(cfg.delimiter->0) || has_invalid_byte(cfg.with->0) {
                    Some(Error::InvalidParameter)
                } else {
                    None
                }
            }
        }
    }
}

impl Cli {
    /// Classifies the source path: fails when it does not exist, and
    /// otherwise reports what kind of entry it is.
    pub fn check_source(&self, exists: bool, is_symlink: bool, is_file: bool) -> (r: Result<
        Target,
        Error,
    >)
        ensures
            r == spec_check_source(exists, is_symlink, is_file),
    {
        if !exists {
            Err(Error::SourceNotFound)
        } else if is_symlink {
            Ok(Target::Symlink)
        } else if is_file {
            Ok(Target::File)
        } else {
            Ok(Target::Dir)
        }
    }

    /// Checks the configuration against a batch of `ntotal` candidates,
    /// reporting the first missing or invalid parameter.
    pub fn validate(&self, ntotal: usize) -> (r: Result<(), Error>)
        ensures
            r == match spec_validate(self@, ntotal as nat) {
                Some(e) => Err::<(), Error>(e),
                None => Ok::<(), Error>(()),
            },
    {
        let method = match &self.method {
            None => {
                return Err(Error::MissingParameter);
            }
            Some(m) => *m,
        };
        match method {
            Method::Random => {
                let nbits = match self.nbits {
                    None => {
                        return Err(Error::MissingParameter);
                    }
                    Some(n) => n,
                };
                let n_min = b62_bytes(ntotal).len();
                if !(n_min <= nbits && nbits <= BIT_MAX) {
                    return Err(Error::InvalidParameter);
                }
                Ok(())
            }
            Method::Uuid => Ok(()),
            Method::Time => {
                let d = match &self.delimiter {
                    None => {
                        return Err(Error::MissingParameter);
                    }
                    Some(d) => d,
                };
                if string_has_invalid(d) {
                    return Err(Error::InvalidParameter);
                }
                Ok(())
            }
            Method::Num => {
                let start = match self.start {
                    None => {
                        return Err(Error::MissingParameter);
                    }
                    Some(s) => s,
                };
                if start < 1 {
                    return Err(Error::InvalidParameter);
                }
                match start.checked_add(ntotal) {
                    None => Err(Error::InvalidParameter),
                    Some(_) => Ok(()),
                }
            }
            Method::Znum => {
                let start = match self.start {
                    None => {
                        return Err(Error::MissingParameter);
                    }
                    Some(s) => s,
                };
                let nbits = match self.nbits {
                    None => {
                        return Err(Error::MissingParameter);
                    }
                    Some(n) => n,
                };
                if start < 1 {
                    return Err(Error::InvalidParameter);
                }
                let sum = match start.checked_add(ntotal) {
                    None => {
                        return Err(Error::InvalidParameter);
                    }
                    Some(s) => s,
                };
                let n_min = dec_bytes(sum).len();
                if !(n_min <= nbits && nbits <= BIT_MAX) {
                    return Err(Error::InvalidParameter);
                }
                Ok(())
            }
            Method::Uppercase | Method::Lowercase => Ok(()),
            Method::Prefix | Method::Append => {
                let d = match &self.delimiter {
                    None => {
                        return Err(Error::MissingParameter);
                    }
                    Some(d) => d,
                };
                let w = match &self.with {
                    None => {
                        return Err(Error::MissingParameter);
                    }
                    Some(w) => w,
                };
                if string_has_invalid(d) || string_has_invalid(w) {
                    return Err(Error::InvalidParameter);
                }
                Ok(())
            }
        }
    }

    /// The base-62 digit string of a number, over the alphabet
    /// `0-9A-Za-z`; the width a random stem must at least have to cover a
    /// batch of that size.
    pub fn decimal_to_62(decimal: usize) -> (r: String)
        ensures
            r@.len() == spec_b62(decimal as nat).len(),
            forall|i: int| 0 <= i < r@.len() ==> r@[i] == spec_b62(decimal as nat)[i] as char,
    {
        let b = b62_bytes(decimal);
        proof {
            lemma_spec_b62_ascii(decimal as nat);
        }
        ascii_to_string(&b)
    }
}

/// Every base-62 digit byte is ASCII.
proof fn lemma_spec_b62_ascii(n: nat)
    ensures
        forall|i: int| 0 <= i < spec_b62(n).len() ==> #[trigger] spec_b62(n)[i] < 128,
    decreases n,
{
    if n < 62 {
        assert(spec_b62(n)[0] == crate::bytes::b62_digit(n));
    } else {
        lemma_spec_b62_ascii(n / 62);
        let s = spec_b62(n);
        assert(s == spec_b62(n / 62).push(crate::bytes::b62_digit(n % 62)));
        assert forall|i: int| 0 <= i < s.len() implies #[trigger] s[i] < 128 by {
            if i < s.len() - 1 {
                assert(s[i] == spec_b62(n / 62)[i]);
            } else {
                assert(s[i] == crate::bytes::b62_digit(n % 62));
            }
        }
    }
}

/// Relies on std's `String::from_utf8`: ASCII bytes are valid UTF-8 and
/// decode one byte to one character, each the character of its byte.
#[verifier::external_body]
fn ascii_to_string(v: &Vec<u8>) -> (r: String)
    requires
        forall|i: int| 0 <= i < v@.len() ==> #[trigger] v@[i] < 128,
    ensures
        r@.len() == v@.len(),
        forall|i: int| 0 <= i < v@.len() ==> r@[i] == #[trigger] v@[i] as char,
{
    String::from_utf8(v.clone()).unwrap_or_default()
}

} // verus!
