//! Finite maps keyed by byte paths, backed by association vectors with
//! distinct keys: the per-directory counter table and the stem-consistency
//! map of a planning pass.

use vstd::prelude::*;

verus! {

/// The map denoted by a counter association vector.
pub open spec fn counter_view(s: Seq<(Vec<u8>, usize)>) -> Map<Seq<u8>, usize>
    decreases s.len(),
{
    if s.len() == 0 {
        Map::empty()
    } else {
        counter_view(s.drop_last()).insert(s.last().0@, s.last().1)
    }
}

/// Keys of a counter association vector are distinct.
pub open spec fn counter_keys_distinct(s: Seq<(Vec<u8>, usize)>) -> bool {
    forall|i: int, j: int|
        0 <= i < j < s.len() ==> (#[trigger] s[i]).0@ != (#[trigger] s[j]).0@
}

proof fn lemma_counter_absent(s: Seq<(Vec<u8>, usize)>, k: Seq<u8>)
    requires
        forall|i: int| 0 <= i < s.len() ==> (#[trigger] s[i]).0@ != k,
    ensures
        !counter_view(s).contains_key(k),
    decreases s.len(),
{
    if s.len() > 0 {
        lemma_counter_absent(s.drop_last(), k);
    }
}

proof fn lemma_counter_found(s: Seq<(Vec<u8>, usize)>, i: int)
    requires
        counter_keys_distinct(s),
        0 <= i < s.len(),
    ensures
        counter_view(s).contains_key(s[i].0@),
        counter_view(s)[s[i].0@] == s[i].1,
    decreases s.len(),
{
    if i < s.len() - 1 {
        assert(counter_keys_distinct(s.drop_last()));
        lemma_counter_found(s.drop_last(), i);
    }
}

proof fn lemma_counter_update(s: Seq<(Vec<u8>, usize)>, i: int, p: (Vec<u8>, usize))
    requires
        counter_keys_distinct(s),
        0 <= i < s.len(),
        p.0@ == s[i].0@,
    ensures
        counter_view(s.update(i, p)) =~= counter_view(s).insert(p.0@, p.1),
    decreases s.len(),
{
    let t = s.update(i, p);
    if i == s.len() - 1 {
        assert(t.drop_last() =~= s.drop_last());
        assert(t.last() == p);
    } else {
        assert(counter_keys_distinct(s.drop_last()));
        assert(t.drop_last() =~= s.drop_last().update(i, p));
        lemma_counter_update(s.drop_last(), i, p);
        assert(t.last() == s.last());
        assert(s.last().0@ != p.0@);
    }
}

/// A per-directory counter table: the last-assigned sequence number of each
/// parent directory that has received one.
pub struct CounterMap {
    pub entries: Vec<(Vec<u8>, usize)>,
}

impl CounterMap {
    pub open spec fn wf(&self) -> bool {
        counter_keys_distinct(self.entries@)
    }

    pub open spec fn view(&self) -> Map<Seq<u8>, usize> {
        counter_view(self.entries@)
    }

    /// An empty counter table.
    pub fn new() -> (r: CounterMap)
        ensures
            r.wf(),
            r.view() == Map::<Seq<u8>, usize>::empty(),
    {
        CounterMap { entries: Vec::new() }
    }

    /// The counter of `key`, when one has been assigned.
    pub fn get(&self, key: &Vec<u8>) -> (r: Option<usize>)
        requires
            self.wf(),
        ensures
            match r {
                Some(v) => self.view().contains_key(key@) && self.view()[key@] == v,
                None => !self.view().contains_key(key@),
            },
    {
        let mut i: usize = 0;
        while i < self.entries.len()
            invariant
                0 <= i <= self.entries@.len(),
                self.wf(),
                forall|j: int| 0 <= j < i
                    ==> (#[trigger] self.entries@[j]).0@ != key@,
            decreases self.entries@.len() - i,
        {
            if crate::bytes::bytes_eq(&self.entries[i].0, key) {
                proof {
                    lemma_counter_found(self.entries@, i as int);
                }
                return Some(self.entries[i].1);
            }
            i += 1;
        }
        proof {
            lemma_counter_absent(self.entries@, key@);
        }
        None
    }

    /// Sets the counter of `key`.
    #[verifier::loop_isolation(false)]
    pub fn set(&mut self, key: &Vec<u8>, val: usize)
        requires
            old(self).wf(),
        ensures
            final(self).wf(),
            final(self).view() == old(self).view().insert(key@, val),
    {
        let ghost s0 = self.entries@;
        let mut i: usize = 0;
        while i < self.entries.len()
            invariant
                0 <= i <= self.entries@.len(),
                self.entries@ == s0,
                counter_keys_distinct(s0),
                forall|j: int| 0 <= j < i ==> (#[trigger] s0[j]).0@ != key@,
            decreases self.entries@.len() - i,
        {
            if crate::bytes::bytes_eq(&self.entries[i].0, key) {
                let pair = (key.clone(), val);
                proof {
                    assert(pair.0@ =~= key@);
                    assert(pair.0@ == s0[i as int].0@);
                    lemma_counter_update(s0, i as int, pair);
                }
                self.entries[i] = pair;
                proof {
                    assert(counter_keys_distinct(self.entries@));
                }
                return;
            }
            i += 1;
        }
        let pair = (key.clone(), val);
        proof {
            assert(pair.0@ =~= key@);
        }
        self.entries.push(pair);
        proof {
            assert(self.entries@.drop_last() =~= s0);
            assert(self.entries@.last().0@ == key@);
            assert(counter_keys_distinct(self.entries@));
            assert(counter_view(self.entries@)
                =~= counter_view(s0).insert(key@, val));
        }
    }
}

/// The map denoted by a stem association vector.
pub open spec fn stem_view(s: Seq<(Vec<u8>, Vec<u8>)>) -> Map<Seq<u8>, Seq<u8>>
    decreases s.len(),
{
    if s.len() == 0 {
        Map::empty()
    } else {
        stem_view(s.drop_last()).insert(s.last().0@, s.last().1@)
    }
}

/// Keys of a stem association vector are distinct.
pub open spec fn stem_keys_distinct(s: Seq<(Vec<u8>, Vec<u8>)>) -> bool {
    forall|i: int, j: int|
        0 <= i < j < s.len() ==> (#[trigger] s[i]).0@ != (#[trigger] s[j]).0@
}

proof fn lemma_stem_absent(s: Seq<(Vec<u8>, Vec<u8>)>, k: Seq<u8>)
    requires
        forall|i: int| 0 <= i < s.len() ==> (#[trigger] s[i]).0@ != k,
    ensures
        !stem_view(s).contains_key(k),
    decreases s.len(),
{
    if s.len() > 0 {
        lemma_stem_absent(s.drop_last(), k);
    }
}

proof fn lemma_stem_found(s: Seq<(Vec<u8>, Vec<u8>)>, i: int)
    requires
        stem_keys_distinct(s),
        0 <= i < s.len(),
    ensures
        stem_view(s).contains_key(s[i].0@),
        stem_view(s)[s[i].0@] == s[i].1@,
    decreases s.len(),
{
    if i < s.len() - 1 {
        assert(stem_keys_distinct(s.drop_last()));
        lemma_stem_found(s.drop_last(), i);
    }
}

/// The stem-consistency map of a planning pass: for each already handled
/// extension-stripped path, the new stem chosen for it.
pub struct StemMap {
    pub entries: Vec<(Vec<u8>, Vec<u8>)>,
}

impl StemMap {
    pub open spec fn wf(&self) -> bool {
        stem_keys_distinct(self.entries@)
    }

    pub open spec fn view(&self) -> Map<Seq<u8>, Seq<u8>> {
        stem_view(self.entries@)
    }

    /// An empty stem map.
    pub fn new() -> (r: StemMap)
        ensures
            r.wf(),
            r.view() == Map::<Seq<u8>, Seq<u8>>::empty(),
    {
        StemMap { entries: Vec::new() }
    }

    /// The stem chosen for `key`, when one has been.
    pub fn get(&self, key: &Vec<u8>) -> (r: Option<&Vec<u8>>)
        requires
            self.wf(),
        ensures
            match r {
                Some(v) => self.view().contains_key(key@) && self.view()[key@] == v@,
                None => !self.view().contains_key(key@),
            },
    {
        let mut i: usize = 0;
        while i < self.entries.len()
            invariant
                0 <= i <= self.entries@.len(),
                self.wf(),
                forall|j: int| 0 <= j < i
                    ==> (#[trigger] self.entries@[j]).0@ != key@,
            decreases self.entries@.len() - i,
        {
            if crate::bytes::bytes_eq(&self.entries[i].0, key) {
                proof {
                    lemma_stem_found(self.entries@, i as int);
                }
                return Some(&self.entries[i].1);
            }
            i += 1;
        }
        proof {
            lemma_stem_absent(self.entries@, key@);
        }
        None
    }

    /// Records the stem chosen for a key not yet present.
    pub fn put_new(&mut self, key: &Vec<u8>, val: Vec<u8>)
        requires
            old(self).wf(),
            !old(self).view().contains_key(key@),
        ensures
            final(self).wf(),
            final(self).view() == old(self).view().insert(key@, val@),
    {
        let ghost s0 = self.entries@;
        proof {
            assert(forall|i: int| 0 <= i < s0.len()
                ==> (#[trigger] s0[i]).0@ != key@) by {
                if exists|i: int| 0 <= i < s0.len() && (#[trigger] s0[i]).0@ == key@ {
                    let i = choose|i: int|
                        0 <= i < s0.len() && (#[trigger] s0[i]).0@ == key@;
                    lemma_stem_found(s0, i);
                }
            }
        }
        let pair = (key.clone(), val);
        proof {
            assert(pair.0@ =~= key@);
        }
        let ghost v0 = pair.1@;
        self.entries.push(pair);
        proof {
            assert(self.entries@.drop_last() =~= s0);
            assert(self.entries@.last().0@ == key@);
            assert(self.entries@.last().1@ == v0);
            assert(stem_keys_distinct(self.entries@));
            assert(stem_view(self.entries@)
                =~= stem_view(s0).insert(key@, v0));
        }
    }
}

} // verus!
