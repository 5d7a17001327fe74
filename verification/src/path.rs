//! Byte-path operations: hidden-name detection, stem and extension
//! splitting, and composition of a new name under a parent directory.
//!
//! A path is a byte string; a parent directory is given without a trailing
//! separator (the filesystem root is the empty parent), and a child path is
//! the parent, one separator byte, and the name.

use vstd::prelude::*;

verus! {

/// The path separator byte.
pub open spec fn sep() -> u8 {
    47
}

/// A name is hidden when it begins with an ASCII dot.
pub open spec fn spec_is_hidden(name: Seq<u8>) -> bool {
    name.len() > 0 && name[0] == 46
}

/// Whether `name` begins with an ASCII dot.
pub fn is_hidden(name: &Vec<u8>) -> (r: bool)
    ensures
        r == spec_is_hidden(name@),
{
    name.len() > 0 && name[0] == 46
}

/// The index of the extension separator in a file name: the last dot, if it
/// is neither the first byte nor absent; `-1` otherwise.  A leading dot marks
/// a hidden name, not an empty stem.
pub open spec fn ext_sep(name: Seq<u8>) -> int
    decreases name.len(),
{
    if name.len() <= 1 {
        -1
    } else if name.last() == 46 {
        name.len() - 1
    } else {
        ext_sep(name.drop_last())
    }
}

pub proof fn lemma_ext_sep(name: Seq<u8>)
    ensures
        -1 <= ext_sep(name) < name.len(),
        ext_sep(name) >= 0 ==> ext_sep(name) >= 1 && name[ext_sep(name)] == 46,
        forall|j: int| ext_sep(name) < j < name.len() && j >= 1 ==> name[j] != 46,
    decreases name.len(),
{
    if name.len() > 1 && name.last() != 46 {
        lemma_ext_sep(name.drop_last());
        assert(forall|j: int|
            0 <= j < name.len() - 1 ==> name[j] == name.drop_last()[j]);
    }
}

/// The stem of a name: the part before the extension separator, or the whole
/// name when there is none.
pub open spec fn stem_of(name: Seq<u8>) -> Seq<u8> {
    if ext_sep(name) < 0 {
        name
    } else {
        name.take(ext_sep(name))
    }
}

/// The extension of a name: the part after the extension separator, which
/// may be empty, or `None` when there is no separator.
pub open spec fn ext_of(name: Seq<u8>) -> Option<Seq<u8>> {
    if ext_sep(name) < 0 {
        None
    } else {
        Some(name.skip(ext_sep(name) + 1))
    }
}

/// A new file name built from a stem and an optional extension.  An empty
/// extension adds no dot, as replacing an extension with an empty one does.
pub open spec fn spec_new_name(stem: Seq<u8>, ext: Option<Seq<u8>>) -> Seq<u8> {
    match ext {
        Some(e) => if e.len() > 0 {
            stem + seq![46u8] + e
        } else {
            stem
        },
        None => stem,
    }
}

/// The path of a child entry under a parent directory.
pub open spec fn spec_child(parent: Seq<u8>, name: Seq<u8>) -> Seq<u8> {
    parent + seq![sep()] + name
}

/// A well-formed entry name: non-empty and free of the path separator.
pub open spec fn wf_name(name: Seq<u8>) -> bool {
    name.len() > 0 && forall|i: int| 0 <= i < name.len() ==> name[i] != sep()
}

/// Splits a name at its extension separator.
pub fn find_ext_sep(name: &Vec<u8>) -> (r: Option<usize>)
    ensures
        r matches Some(i) ==> i as int == ext_sep(name@),
        r is None ==> ext_sep(name@) == -1,
{
    proof {
        assert(name@.take(name@.len() as int) =~= name@);
    }
    let mut i: usize = name.len();
    while i > 1
        invariant
            0 <= i <= name.len(),
            i >= 1 || name@.len() == 0,
            i >= 1 ==> ext_sep(name@) == ext_sep(name@.take(i as int)),
        decreases i,
    {
        if name[i - 1] == 46 {
            proof {
                assert(name@.take(i as int).last() == name@[i - 1]);
            }
            return Some(i - 1);
        }
        proof {
            if i >= 2 {
                assert(name@.take(i as int).drop_last() =~= name@.take(i - 1));
            }
        }
        i -= 1;
    }
    proof {
        if name@.len() >= 1 {
            assert(ext_sep(name@.take(1)) == -1);
        } else {
            assert(ext_sep(name@.take(0)) == -1);
        }
    }
    None
}

/// Copies the bytes of `v` from index `k` on.
pub fn suffix_from(v: &Vec<u8>, k: usize) -> (r: Vec<u8>)
    requires
        k <= v@.len(),
    ensures
        r@ == v@.skip(k as int),
{
    let mut r: Vec<u8> = Vec::new();
    let mut i: usize = k;
    while i < v.len()
        invariant
            k <= i <= v@.len(),
            r@ =~= v@.subrange(k as int, i as int),
        decreases v@.len() - i,
    {
        r.push(v[i]);
        proof {
            assert(r@ =~= v@.subrange(k as int, i + 1));
        }
        i += 1;
    }
    proof {
        assert(r@ =~= v@.skip(k as int));
    }
    r
}

/// Copies the first `k` bytes of `v`.
pub fn prefix_to(v: &Vec<u8>, k: usize) -> (r: Vec<u8>)
    requires
        k <= v@.len(),
    ensures
        r@ == v@.take(k as int),
{
    let mut r: Vec<u8> = Vec::new();
    let mut i: usize = 0;
    while i < k
        invariant
            0 <= i <= k <= v@.len(),
            r@ =~= v@.take(i as int),
        decreases k - i,
    {
        r.push(v[i]);
        proof {
            assert(r@ =~= v@.take(i + 1));
        }
        i += 1;
    }
    r
}

/// The stem of a file name.
pub fn stem_bytes(name: &Vec<u8>) -> (r: Vec<u8>)
    ensures
        r@ == stem_of(name@),
{
    proof {
        lemma_ext_sep(name@);
    }
    match find_ext_sep(name) {
        Some(i) => prefix_to(name, i),
        None => {
            let r = name.clone();
            proof {
                assert(r@ =~= name@);
            }
            r
        }
    }
}

/// The extension of a file name, when it has one.
pub fn ext_bytes(name: &Vec<u8>) -> (r: Option<Vec<u8>>)
    ensures
        match r {
            Some(e) => ext_of(name@) == Some(e@),
            None => ext_of(name@) is None,
        },
{
    proof {
        lemma_ext_sep(name@);
    }
    match find_ext_sep(name) {
        Some(i) => {
            proof {
                assert(name@.len() == name.len());
                assert(i as int == ext_sep(name@) < name.len() as int);
            }
            Some(suffix_from(name, i + 1))
        }
        None => None,
    }
}

/// Builds the new name of an entry from a stem and an optional extension.
pub fn new_name(stem: &Vec<u8>, ext: &Option<Vec<u8>>) -> (r: Vec<u8>)
    ensures
        r@ == spec_new_name(
            stem@,
            match ext {
                Some(e) => Some(e@),
                None => None,
            },
        ),
{
    match ext {
        Some(e) => {
            if e.len() > 0 {
                let mut r = stem.clone();
                r.push(46);
                let mut i: usize = 0;
                while i < e.len()
                    invariant
                        0 <= i <= e@.len(),
                        r@ =~= stem@ + seq![46u8] + e@.take(i as int),
                    decreases e@.len() - i,
                {
                    r.push(e[i]);
                    proof {
                        assert(r@ =~= stem@ + seq![46u8] + e@.take(i + 1));
                    }
                    i += 1;
                }
                proof {
                    assert(e@.take(e@.len() as int) =~= e@);
                }
                r
            } else {
                let r = stem.clone();
                proof {
                    assert(r@ =~= stem@);
                }
                r
            }
        }
        None => {
            let r = stem.clone();
            proof {
                assert(r@ =~= stem@);
            }
            r
        }
    }
}

/// Builds the path of a child entry under a parent directory.
pub fn child_path(parent: &Vec<u8>, name: &Vec<u8>) -> (r: Vec<u8>)
    ensures
        r@ == spec_child(parent@, name@),
{
    let mut r = parent.clone();
    r.push(47);
    let mut i: usize = 0;
    while i < name.len()
        invariant
            0 <= i <= name@.len(),
            r@ =~= parent@ + seq![sep()] + name@.take(i as int),
        decreases name@.len() - i,
    {
        r.push(name[i]);
        proof {
            assert(r@ =~= parent@ + seq![sep()] + name@.take(i + 1));
        }
        i += 1;
    }
    proof {
        assert(name@.take(name@.len() as int) =~= name@);
    }
    r
}

/// The path of an entry without its extension: the key under which stem
/// consistency is tracked.
pub open spec fn spec_stem_key(parent: Seq<u8>, name: Seq<u8>) -> Seq<u8> {
    spec_child(parent, stem_of(name))
}

/// Builds the stem-consistency key of an entry.
pub fn stem_key(parent: &Vec<u8>, name: &Vec<u8>) -> (r: Vec<u8>)
    ensures
        r@ == spec_stem_key(parent@, name@),
{
    let stem = stem_bytes(name);
    child_path(parent, &stem)
}

} // verus!
