//! Target discovery: which walked entries become rename candidates, and the
//! order the engine processes them in.
//!
//! The caller walks the source tree and hands the engine one `RawEntry` per
//! entry seen, in walk order.  The engine keeps the entries that match the
//! configured target kind, drops hidden names, symbolic links, the root
//! itself and entries beyond the configured depth, and sorts what is left
//! into processing order: deepest entries first (so a directory rename never
//! invalidates the paths of not-yet-processed descendants), then by parent
//! directory, then by the numeric value of the file stem, with walk order
//! breaking ties.

use vstd::prelude::*;
use vstd::multiset::Multiset;
use vstd::seq_lib::*;
use crate::bytes::{lex_lt, spec_sort_key, bytes_eq, bytes_lt, sort_key};
use crate::bytes::{lemma_lex_lt_total, lemma_lex_lt_trans, lemma_lex_lt_asym};
use crate::path::{spec_is_hidden, stem_of, wf_name, is_hidden, stem_bytes};
use crate::target::Target;

verus! {

/// A walked filesystem entry, as the caller reports it: its parent
/// directory (without a trailing separator; empty for the filesystem root),
/// its name, its depth below the walk root, and what kind of entry it is.
pub struct RawEntry {
    pub parent: Vec<u8>,
    pub name: Vec<u8>,
    pub depth: usize,
    pub is_dir: bool,
    pub is_file: bool,
    pub is_symlink: bool,
}

/// The mathematical value of a walked entry.
pub ghost struct EntryV {
    pub parent: Seq<u8>,
    pub name: Seq<u8>,
    pub depth: nat,
    pub is_dir: bool,
    pub is_file: bool,
    pub is_symlink: bool,
}

impl View for RawEntry {
    type V = EntryV;

    open spec fn view(&self) -> EntryV {
        EntryV {
            parent: self.parent@,
            name: self.name@,
            depth: self.depth as nat,
            is_dir: self.is_dir,
            is_file: self.is_file,
            is_symlink: self.is_symlink,
        }
    }
}

/// A rename candidate: a kept entry together with its walk position, which
/// breaks ordering ties.
#[derive(Debug)]
pub struct Candidate {
    pub parent: Vec<u8>,
    pub name: Vec<u8>,
    pub depth: usize,
    pub index: usize,
}

/// The mathematical value of a candidate.
pub ghost struct CandidateV {
    pub parent: Seq<u8>,
    pub name: Seq<u8>,
    pub depth: nat,
    pub index: nat,
}

impl View for Candidate {
    type V = CandidateV;

    open spec fn view(&self) -> CandidateV {
        CandidateV {
            parent: self.parent@,
            name: self.name@,
            depth: self.depth as nat,
            index: self.index as nat,
        }
    }
}

/// The values of a candidate vector.
pub open spec fn cands_view(s: Seq<Candidate>) -> Seq<CandidateV> {
    s.map_values(|c: Candidate| c@)
}

/// Whether a walked entry is kept as a rename candidate: it is below the
/// root, within the recursion and depth limits, not hidden, not a symbolic
/// link, of the configured kind, and has a well-formed name.
pub open spec fn entry_accepted(
    e: EntryV,
    kind: Target,
    recursive: bool,
    max_depth: Option<usize>,
) -> bool {
    &&& e.depth >= 1
    &&& (recursive || e.depth <= 1)
    &&& (match max_depth {
        Some(d) => e.depth <= d as nat,
        None => true,
    })
    &&& !e.is_symlink
    &&& !spec_is_hidden(e.name)
    &&& (if e.is_file {
        kind is File
    } else if e.is_dir {
        kind is Dir
    } else {
        false
    })
    &&& wf_name(e.name)
}

/// The candidate a kept entry becomes, at walk position `i`.
pub open spec fn cand_of(e: EntryV, i: int) -> CandidateV {
    CandidateV { parent: e.parent, name: e.name, depth: e.depth, index: i as nat }
}

/// The candidates of a walked entry sequence, in walk order, starting at
/// walk position `i0`.
pub open spec fn spec_filter(
    s: Seq<EntryV>,
    i0: int,
    kind: Target,
    recursive: bool,
    max_depth: Option<usize>,
) -> Seq<CandidateV>
    decreases s.len(),
{
    if s.len() == 0 {
        Seq::empty()
    } else {
        (if entry_accepted(s[0], kind, recursive, max_depth) {
            seq![cand_of(s[0], i0)]
        } else {
            Seq::empty()
        }) + spec_filter(s.drop_first(), i0 + 1, kind, recursive, max_depth)
    }
}

/// Every candidate of a filtered sequence has a well-formed name.
pub proof fn lemma_filter_wf(
    s: Seq<EntryV>,
    i0: int,
    kind: Target,
    recursive: bool,
    max_depth: Option<usize>,
)
    ensures
        forall|k: int|
            0 <= k < spec_filter(s, i0, kind, recursive, max_depth).len()
                ==> wf_name(
                #[trigger] spec_filter(s, i0, kind, recursive, max_depth)[k].name,
            ),
    decreases s.len(),
{
    if s.len() > 0 {
        lemma_filter_wf(s.drop_first(), i0 + 1, kind, recursive, max_depth);
        let f = spec_filter(s, i0, kind, recursive, max_depth);
        let tail = spec_filter(s.drop_first(), i0 + 1, kind, recursive, max_depth);
        let head: Seq<CandidateV> = if entry_accepted(s[0], kind, recursive, max_depth) {
            seq![cand_of(s[0], i0)]
        } else {
            Seq::empty()
        };
        assert forall|k: int| 0 <= k < f.len() implies wf_name(#[trigger] f[k].name) by {
            if k < head.len() {
                assert(f[k] == cand_of(s[0], i0));
            } else {
                assert(f[k] == tail[k - head.len()]);
            }
        }
    }
}

/// Keeps the entries that match the configuration, in walk order.
pub fn filter_entries(
    entries: Vec<RawEntry>,
    kind: Target,
    recursive: bool,
    max_depth: Option<usize>,
) -> (r: Vec<Candidate>)
    ensures
        cands_view(r@) == spec_filter(entries@.map_values(|e: RawEntry| e@), 0, kind,
            recursive, max_depth),
{
    let ghost all = entries@.map_values(|e: RawEntry| e@);
    let mut rest = entries;
    let total: usize = rest.len();
    let mut r: Vec<Candidate> = Vec::new();
    let mut i: usize = 0;
    proof {
        assert(all.skip(0) =~= all);
        assert(cands_view(r@) =~= Seq::<CandidateV>::empty());
        assert(cands_view(r@) + spec_filter(all, 0, kind, recursive, max_depth)
            =~= spec_filter(all, 0, kind, recursive, max_depth));
    }
    while rest.len() > 0
        invariant
            0 <= i,
            rest@.map_values(|e: RawEntry| e@) =~= all.skip(i as int),
            i + rest@.len() == total as nat,
            total as nat == all.len(),
            cands_view(r@) + spec_filter(all.skip(i as int), i as int, kind, recursive,
                max_depth) =~= spec_filter(all, 0, kind, recursive, max_depth),
        decreases rest@.len(),
    {
        let ghost pre = rest@.map_values(|e: RawEntry| e@);
        let e = rest.remove(0);
        proof {
            assert(rest@.map_values(|ee: RawEntry| ee@) =~= pre.drop_first());
            assert(pre.drop_first() =~= all.skip(i + 1));
            assert(e@ == all[i as int]);
        }
        let keep = e.depth >= 1
            && (recursive || e.depth <= 1)
            && (match max_depth {
                Some(d) => e.depth <= d,
                None => true,
            })
            && !e.is_symlink
            && !is_hidden(&e.name)
            && (if e.is_file {
                matches!(kind, Target::File)
            } else if e.is_dir {
                matches!(kind, Target::Dir)
            } else {
                false
            })
            && e.name.len() > 0
            && name_no_sep(&e.name);
        proof {
            assert(keep == entry_accepted(all[i as int], kind, recursive, max_depth));
        }
        if keep {
            let c = Candidate { parent: e.parent, name: e.name, depth: e.depth, index: i };
            proof {
                assert(c@ == cand_of(all[i as int], i as int));
                assert(cands_view(r@.push(c)) =~= cands_view(r@).push(c@));
                assert(spec_filter(all.skip(i as int), i as int, kind, recursive,
                    max_depth) =~= seq![cand_of(all[i as int], i as int)] + spec_filter(
                    all.skip(i + 1), i + 1, kind, recursive, max_depth));
            }
            r.push(c);
        } else {
            proof {
                assert(spec_filter(all.skip(i as int), i as int, kind, recursive,
                    max_depth) =~= spec_filter(all.skip(i + 1), i + 1, kind, recursive,
                    max_depth));
            }
        }
        i += 1;
    }
    proof {
        assert(all.skip(i as int).len() == 0);
        assert(spec_filter(all.skip(i as int), i as int, kind, recursive, max_depth)
            =~= Seq::<CandidateV>::empty());
        assert(cands_view(r@) =~= cands_view(r@) + Seq::<CandidateV>::empty());
    }
    r
}

/// Whether a name is free of the path separator.
pub fn name_no_sep(name: &Vec<u8>) -> (r: bool)
    ensures
        r == forall|i: int| 0 <= i < name@.len() ==> name@[i] != crate::path::sep(),
{
    let mut i: usize = 0;
    while i < name.len()
        invariant
            0 <= i <= name@.len(),
            forall|j: int| 0 <= j < i ==> name@[j] != crate::path::sep(),
        decreases name@.len() - i,
    {
        if name[i] == 47 {
            return false;
        }
        i += 1;
    }
    true
}

/// The processing order of candidates: deeper entries first, then parent
/// directories in lexicographic order, then the numeric value of the file
/// stem, then walk order.
pub open spec fn cand_le(a: CandidateV, b: CandidateV) -> bool {
    if a.depth != b.depth {
        a.depth > b.depth
    } else if a.parent != b.parent {
        lex_lt(a.parent, b.parent)
    } else if spec_sort_key(stem_of(a.name)) != spec_sort_key(stem_of(b.name)) {
        spec_sort_key(stem_of(a.name)) < spec_sort_key(stem_of(b.name))
    } else {
        a.index <= b.index
    }
}

/// A candidate sequence in processing order.
pub open spec fn cands_sorted(s: Seq<CandidateV>) -> bool {
    forall|i: int, j: int| 0 <= i < j < s.len() ==> cand_le(#[trigger] s[i], #[trigger] s[j])
}

pub proof fn lemma_cand_le_total(a: CandidateV, b: CandidateV)
    ensures
        cand_le(a, b) || cand_le(b, a),
{
    lemma_lex_lt_total(a.parent, b.parent);
}

pub proof fn lemma_cand_le_trans(a: CandidateV, b: CandidateV, c: CandidateV)
    requires
        cand_le(a, b),
        cand_le(b, c),
    ensures
        cand_le(a, c),
{
    if a.depth == b.depth && b.depth == c.depth {
        if a.parent != b.parent {
            if b.parent != c.parent {
                lemma_lex_lt_trans(a.parent, b.parent, c.parent);
            }
            if a.parent == c.parent {
                crate::bytes::lemma_lex_lt_irrefl(a.parent);
                if b.parent != c.parent {
                    lemma_lex_lt_asym(a.parent, b.parent);
                }
            }
        } else {
            if b.parent != c.parent && a.parent == c.parent {
                crate::bytes::lemma_lex_lt_irrefl(c.parent);
            }
        }
    }
}

/// Decides the processing order of two candidates.
pub fn cand_le_exec(a: &Candidate, b: &Candidate) -> (r: bool)
    ensures
        r == cand_le(a@, b@),
{
    if a.depth != b.depth {
        return a.depth > b.depth;
    }
    if !bytes_eq(&a.parent, &b.parent) {
        return bytes_lt(&a.parent, &b.parent);
    }
    let sa = stem_bytes(&a.name);
    let sb = stem_bytes(&b.name);
    let ka = sort_key(&sa);
    let kb = sort_key(&sb);
    if ka != kb {
        return ka < kb;
    }
    a.index <= b.index
}

/// Sorts candidates into processing order; the result holds the same
/// candidates.
#[verifier::loop_isolation(false)]
pub fn sort_candidates(v: Vec<Candidate>) -> (r: Vec<Candidate>)
    ensures
        cands_view(r@).to_multiset() == cands_view(v@).to_multiset(),
        cands_sorted(cands_view(r@)),
{
    let mut src = v;
    let mut r: Vec<Candidate> = Vec::new();
    proof {
        cands_view(r@).to_multiset_ensures();
        cands_view(src@).to_multiset_ensures();
    }
    while src.len() > 0
        invariant
            cands_view(r@).to_multiset().add(cands_view(src@).to_multiset())
                =~= cands_view(v@).to_multiset(),
            cands_sorted(cands_view(r@)),
            forall|i: int, j: int|
                0 <= i < r@.len() && 0 <= j < src@.len() ==> cand_le(
                    #[trigger] cands_view(r@)[i],
                    #[trigger] cands_view(src@)[j],
                ),
        decreases src@.len(),
    {
        let mut m: usize = 0;
        let mut j: usize = 1;
        while j < src.len()
            invariant
                0 <= m < j <= src@.len(),
                forall|k: int| 0 <= k < j ==> cand_le(
                    cands_view(src@)[m as int],
                    #[trigger] cands_view(src@)[k],
                ),
            decreases src@.len() - j,
        {
            if cand_le_exec(&src[j], &src[m]) {
                proof {
                    assert forall|k: int| 0 <= k < j + 1 implies cand_le(
                        cands_view(src@)[j as int],
                        cands_view(src@)[k],
                    ) by {
                        if k < j {
                            lemma_cand_le_trans(
                                cands_view(src@)[j as int],
                                cands_view(src@)[m as int],
                                cands_view(src@)[k],
                            );
                        }
                    }
                }
                m = j;
            } else {
                proof {
                    lemma_cand_le_total(cands_view(src@)[j as int], cands_view(src@)[m as int]);
                }
            }
            j += 1;
        }
        let ghost src0 = src@;
        let x = src.remove(m);
        proof {
            let sv = cands_view(src0);
            sv.to_multiset_ensures();
            assert(cands_view(src@) =~= sv.remove(m as int));
            assert(cands_view(src@).to_multiset() =~= sv.to_multiset().remove(x@));
            cands_view(r@).to_multiset_ensures();
            assert(cands_view(r@.push(x)) =~= cands_view(r@).push(x@));
            assert(cands_view(r@.push(x)).to_multiset()
                =~= cands_view(r@).to_multiset().insert(x@));
            assert(sv.to_multiset().count(x@) > 0) by {
                assert(sv[m as int] == x@);
                assert(sv.contains(x@));
            }
            assert(cands_view(r@).to_multiset().insert(x@).add(
                sv.to_multiset().remove(x@),
            ) =~= cands_view(r@).to_multiset().add(sv.to_multiset()));
            // the moved candidate stays below everything still unsorted
            assert(forall|k: int| 0 <= k < cands_view(src@).len()
                ==> cand_le(x@, #[trigger] cands_view(src@)[k]));
        }
        r.push(x);
    }
    proof {
        cands_view(src@).to_multiset_ensures();
        assert forall|c: CandidateV|
            cands_view(src@).to_multiset().count(c)
                == Multiset::<CandidateV>::empty().count(c) by {
            assert(!cands_view(src@).contains(c));
        }
        assert(cands_view(src@).to_multiset() =~= Multiset::<CandidateV>::empty());
        assert(cands_view(r@).to_multiset().add(Multiset::<CandidateV>::empty())
            =~= cands_view(r@).to_multiset());
    }
    r
}

} // verus!
