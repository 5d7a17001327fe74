//! An explicit model of which paths exist: the set the engine checks new
//! names against and updates as renames are planned, mirroring what the
//! filesystem will hold once the plan is applied.

use vstd::prelude::*;

verus! {

/// The set denoted by a path vector.
pub open spec fn paths_view(s: Seq<Vec<u8>>) -> Set<Seq<u8>>
    decreases s.len(),
{
    if s.len() == 0 {
        Set::empty()
    } else {
        paths_view(s.drop_last()).insert(s.last()@)
    }
}

/// Paths of the vector are distinct.
pub open spec fn paths_distinct(s: Seq<Vec<u8>>) -> bool {
    forall|i: int, j: int|
        0 <= i < j < s.len() ==> (#[trigger] s[i])@ != (#[trigger] s[j])@
}

proof fn lemma_paths_absent(s: Seq<Vec<u8>>, p: Seq<u8>)
    requires
        forall|i: int| 0 <= i < s.len() ==> (#[trigger] s[i])@ != p,
    ensures
        !paths_view(s).contains(p),
    decreases s.len(),
{
    if s.len() > 0 {
        lemma_paths_absent(s.drop_last(), p);
    }
}

proof fn lemma_paths_found(s: Seq<Vec<u8>>, i: int)
    requires
        0 <= i < s.len(),
    ensures
        paths_view(s).contains(s[i]@),
    decreases s.len(),
{
    if i < s.len() - 1 {
        lemma_paths_found(s.drop_last(), i);
    }
}

proof fn lemma_paths_remove(s: Seq<Vec<u8>>, i: int)
    requires
        paths_distinct(s),
        0 <= i < s.len(),
    ensures
        paths_view(s.remove(i)) =~= paths_view(s).remove(s[i]@),
    decreases s.len(),
{
    if i == s.len() - 1 {
        assert(s.remove(i) =~= s.drop_last());
        assert(forall|j: int| 0 <= j < s.len() - 1
            ==> (#[trigger] s[j])@ != s[i]@);
        lemma_paths_absent(s.drop_last(), s[i]@);
    } else {
        assert(paths_distinct(s.drop_last()));
        assert(s.remove(i).drop_last() =~= s.drop_last().remove(i));
        assert(s.remove(i).last() == s.last());
        lemma_paths_remove(s.drop_last(), i);
        assert(s.last()@ != s[i]@);
    }
}

/// The set of paths that exist, as the engine models it.
pub struct FsModel {
    pub paths: Vec<Vec<u8>>,
}

impl FsModel {
    pub open spec fn wf(&self) -> bool {
        paths_distinct(self.paths@)
    }

    pub open spec fn view(&self) -> Set<Seq<u8>> {
        paths_view(self.paths@)
    }

    /// An empty model.
    pub fn new() -> (r: FsModel)
        ensures
            r.wf(),
            r.view() == Set::<Seq<u8>>::empty(),
    {
        FsModel { paths: Vec::new() }
    }

    /// The model holding the given paths, duplicates dropped.
    pub fn from_paths(given: Vec<Vec<u8>>) -> (r: FsModel)
        ensures
            r.wf(),
            forall|p: Seq<u8>| r.view().contains(p)
                <==> exists|i: int| 0 <= i < given@.len() && (#[trigger] given@[i])@ == p,
    {
        let mut r = FsModel::new();
        let mut i: usize = 0;
        while i < given.len()
            invariant
                0 <= i <= given@.len(),
                r.wf(),
                forall|p: Seq<u8>| r.view().contains(p)
                    <==> exists|j: int| 0 <= j < i && (#[trigger] given@[j])@ == p,
            decreases given@.len() - i,
        {
            let ghost pre = r.view();
            if !r.contains(&given[i]) {
                let c = given[i].clone();
                proof {
                    assert(c@ =~= given@[i as int]@);
                }
                r.insert_new(c);
            }
            proof {
                assert(r.view() =~= pre.insert(given@[i as int]@));
                assert forall|p: Seq<u8>| r.view().contains(p) implies exists|j: int|
                    0 <= j < i + 1 && (#[trigger] given@[j])@ == p by {
                    if pre.contains(p) {
                        let j = choose|j: int|
                            0 <= j < i && (#[trigger] given@[j])@ == p;
                        assert(0 <= j < i + 1 && given@[j]@ == p);
                    } else {
                        assert(given@[i as int]@ == p);
                    }
                }
                assert forall|p: Seq<u8>|
                    (exists|j: int| 0 <= j < i + 1 && (#[trigger] given@[j])@ == p)
                    implies r.view().contains(p) by {
                    let j = choose|j: int|
                        0 <= j < i + 1 && (#[trigger] given@[j])@ == p;
                    if j < i {
                        assert(pre.contains(p));
                    }
                }
            }
            i += 1;
        }
        r
    }

    /// Whether `p` exists in the model.
    pub fn contains(&self, p: &Vec<u8>) -> (r: bool)
        ensures
            r == self.view().contains(p@),
    {
        let mut i: usize = 0;
        while i < self.paths.len()
            invariant
                0 <= i <= self.paths@.len(),
                forall|j: int| 0 <= j < i ==> (#[trigger] self.paths@[j])@ != p@,
            decreases self.paths@.len() - i,
        {
            if crate::bytes::bytes_eq(&self.paths[i], p) {
                proof {
                    lemma_paths_found(self.paths@, i as int);
                }
                return true;
            }
            i += 1;
        }
        proof {
            lemma_paths_absent(self.paths@, p@);
        }
        false
    }

    /// Adds a path not yet present.
    pub fn insert_new(&mut self, p: Vec<u8>)
        requires
            old(self).wf(),
            !old(self).view().contains(p@),
        ensures
            final(self).wf(),
            final(self).view() == old(self).view().insert(p@),
    {
        let ghost s0 = self.paths@;
        proof {
            assert(forall|i: int| 0 <= i < s0.len()
                ==> (#[trigger] s0[i])@ != p@) by {
                if exists|i: int| 0 <= i < s0.len() && (#[trigger] s0[i])@ == p@ {
                    let i = choose|i: int|
                        0 <= i < s0.len() && (#[trigger] s0[i])@ == p@;
                    lemma_paths_found(s0, i);
                }
            }
        }
        self.paths.push(p);
        proof {
            assert(self.paths@.drop_last() =~= s0);
            assert(paths_distinct(self.paths@));
            assert(paths_view(self.paths@) =~= paths_view(s0).insert(
                self.paths@.last()@,
            ));
        }
    }

    /// Removes `p` when present.
    #[verifier::loop_isolation(false)]
    fn remove_path(&mut self, p: &Vec<u8>)
        requires
            old(self).wf(),
        ensures
            final(self).wf(),
            final(self).view() == old(self).view().remove(p@),
    {
        let ghost s0 = self.paths@;
        let mut i: usize = 0;
        while i < self.paths.len()
            invariant
                0 <= i <= self.paths@.len(),
                self.paths@ == s0,
                paths_distinct(s0),
                forall|j: int| 0 <= j < i ==> (#[trigger] s0[j])@ != p@,
            decreases self.paths@.len() - i,
        {
            if crate::bytes::bytes_eq(&self.paths[i], p) {
                proof {
                    lemma_paths_remove(s0, i as int);
                    assert(paths_distinct(s0.remove(i as int)));
                }
                self.paths.remove(i);
                return;
            }
            i += 1;
        }
        proof {
            lemma_paths_absent(s0, p@);
            assert(paths_view(s0).remove(p@) =~= paths_view(s0));
        }
    }

    /// Applies one rename to the model: `from` stops existing, `to` starts.
    pub fn rename(&mut self, from: &Vec<u8>, to: &Vec<u8>)
        requires
            old(self).wf(),
        ensures
            final(self).wf(),
            final(self).view() == old(self).view().remove(from@).insert(to@),
    {
        self.remove_path(from);
        if !self.contains(to) {
            self.insert_new(to.clone());
        } else {
            proof {
                assert(self.view().insert(to@) =~= self.view());
            }
        }
    }
}

} // verus!
