//! The name-generation step: what one candidate is renamed to, given the
//! configuration, the consistency map, the per-directory counters and the
//! model of existing paths.
//!
//! `step_ok` says which destinations a step may produce and `step_state`
//! how the engine state advances; `Cli::gen_uniq` is the executable step,
//! proved to produce exactly such a destination and exactly that state.

use vstd::prelude::*;
use crate::bytes::{spec_dec, spec_zpad, dec_bytes, zpad, concat_bytes};
use crate::cli::{Cli, CfgV, str_to_bytes};
use crate::discover::CandidateV;
use crate::error::Error;
use crate::fsmodel::FsModel;
use crate::maps::{CounterMap, StemMap};
use crate::method::Method;
use crate::namegen::{is_random_stem, is_uuid_stem, is_time_stem};
use crate::namegen::{spec_ascii_upper, spec_ascii_lower, ascii_upper, ascii_lower};
use crate::namegen::{random_stem, uuid_stem, time_stem, RETRY_MAX};
use crate::path::{sep, spec_child, spec_new_name, stem_of, ext_of, wf_name, spec_stem_key};
use crate::path::{suffix_from, prefix_to, stem_bytes, ext_bytes, new_name, child_path, stem_key};
use crate::target::Target;

verus! {

/// One journal record: where an entry was, and where it is now.
#[derive(Debug)]
pub struct Record {
    pub src: Vec<u8>,
    pub dst: Vec<u8>,
}

/// The mathematical value of a record.
pub ghost struct RecordV {
    pub src: Seq<u8>,
    pub dst: Seq<u8>,
}

impl View for Record {
    type V = RecordV;

    open spec fn view(&self) -> RecordV {
        RecordV { src: self.src@, dst: self.dst@ }
    }
}

/// The values of a record vector.
pub open spec fn recs_view(s: Seq<Record>) -> Seq<RecordV> {
    s.map_values(|r: Record| r@)
}

/// The state a planning pass threads: the model of existing paths, the
/// stem-consistency map, and the per-directory counters.
pub ghost struct StateV {
    pub fs: Set<Seq<u8>>,
    pub stems: Map<Seq<u8>, Seq<u8>>,
    pub counters: Map<Seq<u8>, usize>,
}

/// The path of a candidate.
pub open spec fn cand_path(c: CandidateV) -> Seq<u8> {
    spec_child(c.parent, c.name)
}

/// The stem-consistency key of a candidate: its path without the
/// extension.
pub open spec fn cand_key(c: CandidateV) -> Seq<u8> {
    spec_stem_key(c.parent, c.name)
}

/// The path a candidate gets under a new stem: the stem with the
/// candidate's own extension, under its parent.
pub open spec fn composed(c: CandidateV, stem: Seq<u8>) -> Seq<u8> {
    spec_child(c.parent, spec_new_name(stem, ext_of(c.name)))
}

/// Whether stem consistency applies to this run: it is not switched off,
/// and files are the targets.
pub open spec fn consistency_active(cfg: CfgV) -> bool {
    !cfg.indiscriminate && cfg.target == Some(Target::File)
}

/// A consistency hit: the candidate's key already has a chosen stem, which
/// is reused as it stands.
pub open spec fn step_hit(cfg: CfgV, c: CandidateV, st: StateV) -> bool {
    consistency_active(cfg) && st.stems.contains_key(cand_key(c))
}

/// Whether every parameter the configured method reads is present.
pub open spec fn gen_params_present(cfg: CfgV) -> bool {
    &&& cfg.method is Some
    &&& match cfg.method->0 {
        Method::Random => cfg.nbits is Some,
        Method::Uuid => true,
        Method::Time => cfg.delimiter is Some,
        Method::Num => cfg.start is Some,
        Method::Znum => cfg.start is Some && cfg.nbits is Some,
        Method::Prefix | Method::Append => cfg.with is Some && cfg.delimiter is Some,
        Method::Uppercase | Method::Lowercase => true,
    }
}

/// Whether the configured start is positive, where one is read.
pub open spec fn gen_start_ok(cfg: CfgV) -> bool {
    match cfg.method {
        Some(Method::Num) | Some(Method::Znum) => cfg.start->0 >= 1,
        _ => true,
    }
}

/// The sequence number the candidate's directory hands out next: one past
/// the last assigned, or the configured start for a fresh directory.
pub open spec fn next_counter(cfg: CfgV, c: CandidateV, st: StateV) -> int {
    if st.counters.contains_key(c.parent) {
        st.counters[c.parent] + 1
    } else {
        cfg.start->0 as int
    }
}

/// Whether that number still fits the counter.
pub open spec fn counter_fits(cfg: CfgV, c: CandidateV, st: StateV) -> bool {
    match cfg.method {
        Some(Method::Num) | Some(Method::Znum) => next_counter(cfg, c, st) <= usize::MAX as int,
        _ => true,
    }
}

/// The stem a deterministic method proposes for a candidate.
pub open spec fn det_stem(cfg: CfgV, c: CandidateV, st: StateV) -> Seq<u8> {
    match cfg.method->0 {
        Method::Prefix => cfg.with->0 + cfg.delimiter->0 + stem_of(c.name),
        Method::Append => stem_of(c.name) + cfg.delimiter->0 + cfg.with->0,
        Method::Num => spec_dec(next_counter(cfg, c, st) as nat),
        Method::Znum => spec_zpad(
            spec_dec(next_counter(cfg, c, st) as nat),
            cfg.nbits->0 as nat,
        ),
        Method::Uppercase => spec_ascii_upper(stem_of(c.name)),
        Method::Lowercase => spec_ascii_lower(stem_of(c.name)),
        _ => Seq::empty(),
    }
}

/// The shapes a freshly drawn stem can have, per method.
pub open spec fn fresh_stem_ok(cfg: CfgV, s: Seq<u8>) -> bool {
    match cfg.method->0 {
        Method::Random => is_random_stem(s, cfg.nbits->0 as nat),
        Method::Uuid => is_uuid_stem(s),
        Method::Time => is_time_stem(s, cfg.delimiter->0),
        _ => false,
    }
}

/// The stem of a produced destination, as the consistency map records it:
/// the destination's name under the candidate's parent, with the
/// candidate's extension taken back off.
pub open spec fn dst_stem(c: CandidateV, dst: Seq<u8>) -> Seq<u8> {
    let fname = dst.skip(c.parent.len() as int + 1);
    match ext_of(c.name) {
        Some(e) => if e.len() > 0 {
            fname.take(fname.len() - e.len() - 1)
        } else {
            fname
        },
        None => fname,
    }
}

/// One generation step is acceptable: the record's source is the
/// candidate's path; a consistency hit reuses the recorded stem with no
/// existence check; a fresh method produces a name that does not exist, or
/// the original path once every draw within the retry bound collided; a
/// deterministic method produces its one possible name when free, and the
/// original path when taken; a case fold is returned unconditionally.
pub open spec fn step_ok(cfg: CfgV, c: CandidateV, st: StateV, rec: RecordV) -> bool {
    &&& rec.src == cand_path(c)
    &&& if step_hit(cfg, c, st) {
        rec.dst == composed(c, st.stems[cand_key(c)])
    } else {
        match cfg.method->0 {
            Method::Random | Method::Uuid | Method::Time => {
                ||| ((exists|s: Seq<u8>|
                    fresh_stem_ok(cfg, s) && rec.dst == composed(c, s))
                    && !st.fs.contains(rec.dst))
                ||| rec.dst == cand_path(c)
            }
            Method::Num | Method::Znum | Method::Prefix | Method::Append => {
                let p = composed(c, det_stem(cfg, c, st));
                if !st.fs.contains(p) {
                    rec.dst == p
                } else {
                    rec.dst == cand_path(c)
                }
            }
            Method::Uppercase | Method::Lowercase => {
                // a case fold is returned as it stands: it may equal an
                // existing sibling name, the documented no-op or
                // overwrite edge of these methods
                rec.dst == composed(c, det_stem(cfg, c, st))
            }
        }
    }
}

/// The engine state after one step: the source path stops existing and the
/// destination starts; outside a hit, consistency records the produced
/// stem, and the numbered methods consume their directory's next number.
pub open spec fn step_state(cfg: CfgV, c: CandidateV, st: StateV, rec: RecordV) -> StateV {
    let hit = step_hit(cfg, c, st);
    StateV {
        fs: st.fs.remove(rec.src).insert(rec.dst),
        stems: if consistency_active(cfg) && !hit {
            st.stems.insert(cand_key(c), dst_stem(c, rec.dst))
        } else {
            st.stems
        },
        counters: if !hit && (cfg.method == Some(Method::Num) || cfg.method == Some(
            Method::Znum,
        )) {
            st.counters.insert(c.parent, next_counter(cfg, c, st) as usize)
        } else {
            st.counters
        },
    }
}

/// `pf` is a well-formed entry directly under the directory `pd`.
pub open spec fn path_under(pf: Seq<u8>, pd: Seq<u8>) -> bool {
    &&& pf.len() > pd.len() + 1
    &&& pf.take(pd.len() as int) == pd
    &&& pf[pd.len() as int] == sep()
    &&& wf_name(pf.skip(pd.len() as int + 1))
}

/// The candidate a bare path pair denotes.
pub open spec fn gen_cand(pd: Seq<u8>, pf: Seq<u8>) -> CandidateV {
    CandidateV { parent: pd, name: pf.skip(pd.len() as int + 1), depth: 0, index: 0 }
}

pub proof fn lemma_path_under(pf: Seq<u8>, pd: Seq<u8>)
    requires
        path_under(pf, pd),
    ensures
        pf == spec_child(pd, pf.skip(pd.len() as int + 1)),
{
    assert forall|i: int| 0 <= i < pd.len() implies pf[i] == pd[i] by {
        assert(pf.take(pd.len() as int)[i] == pf[i]);
    }
    assert(pf =~= pd + seq![sep()] + pf.skip(pd.len() as int + 1));
}

/// Decides whether `pf` is a well-formed entry directly under `pd`.
pub fn path_under_exec(pf: &Vec<u8>, pd: &Vec<u8>) -> (r: bool)
    ensures
        r == path_under(pf@, pd@),
{
    if pf.len() <= pd.len() {
        return false;
    }
    if pf.len() <= pd.len() + 1 {
        return false;
    }
    let pre = prefix_to(pf, pd.len());
    if !crate::bytes::bytes_eq(&pre, pd) {
        return false;
    }
    if pf[pd.len()] != 47 {
        return false;
    }
    let name = suffix_from(pf, pd.len() + 1);
    if name.len() == 0 {
        return false;
    }
    crate::discover::name_no_sep(&name)
}

impl Cli {
    /// Generates the unique new path of one candidate entry.
    ///
    /// `pf` is the entry's path and `pd` its parent directory; `fs` models
    /// which paths exist.  On success the result and the two maps advance
    /// exactly as `step_ok` and `step_state` describe.  The call fails only
    /// outside a consistency hit, with `MissingParameter` when the method
    /// or a parameter it reads is absent, and with `InvalidParameter` when
    /// the start is zero or the directory's counter would overflow.
    #[verifier::loop_isolation(false)]
    pub fn gen_uniq(
        &self,
        pf: &Vec<u8>,
        pd: &Vec<u8>,
        map_pd_cnt: &mut CounterMap,
        map_pf_stem: &mut StemMap,
        fs: &FsModel,
    ) -> (r: Result<Vec<u8>, Error>)
        requires
            path_under(pf@, pd@),
            old(map_pd_cnt).wf(),
            old(map_pf_stem).wf(),
        ensures
            final(map_pd_cnt).wf(),
            final(map_pf_stem).wf(),
            ({
                let c = gen_cand(pd@, pf@);
                let st = StateV {
                    fs: fs.view(),
                    stems: old(map_pf_stem).view(),
                    counters: old(map_pd_cnt).view(),
                };
                match r {
                    Ok(dst) => {
                        let st2 = step_state(self@, c, st, RecordV { src: pf@, dst: dst@ });
                        &&& step_hit(self@, c, st) || (gen_params_present(self@)
                            && gen_start_ok(self@) && counter_fits(self@, c, st))
                        &&& step_ok(self@, c, st, RecordV { src: pf@, dst: dst@ })
                        &&& final(map_pf_stem).view() == st2.stems
                        &&& final(map_pd_cnt).view() == st2.counters
                    }
                    Err(e) => {
                        &&& !step_hit(self@, c, st)
                        &&& !(gen_params_present(self@) && gen_start_ok(self@)
                            && counter_fits(self@, c, st))
                        &&& e == if !gen_params_present(self@) {
                            Error::MissingParameter
                        } else {
                            Error::InvalidParameter
                        }
                        &&& final(map_pf_stem).view() == st.stems
                        &&& final(map_pd_cnt).view() == st.counters
                    }
                }
            }),
    {
        let ghost c = gen_cand(pd@, pf@);
        let ghost st = StateV {
            fs: fs.view(),
            stems: map_pf_stem.view(),
            counters: map_pd_cnt.view(),
        };
        proof {
            lemma_path_under(pf@, pd@);
        }
        let pflen = pf.len();
        proof {
            assert(pd@.len() + 1 < pflen as int);
        }
        let name = suffix_from(pf, pd.len() + 1);
        proof {
            assert(name@ == c.name);
            assert(cand_path(c) == pf@);
        }
        let ext = ext_bytes(&name);
        let key = stem_key(pd, &name);
        let cons = !self.indiscriminate && matches!(self.target, Some(Target::File));
        proof {
            assert(cons == consistency_active(self@));
            assert(key@ == cand_key(c));
        }

        // consistency short-circuit: reuse the stem already chosen for
        // this entry's extension-stripped path
        if cons {
            match map_pf_stem.get(&key) {
                Some(s) => {
                    let stem = s.clone();
                    proof {
                        assert(stem@ =~= st.stems[cand_key(c)]);
                    }
                    let nn = new_name(&stem, &ext);
                    let dst = child_path(pd, &nn);
                    proof {
                        assert(dst@ == composed(c, st.stems[cand_key(c)]));
                        assert(step_ok(self@, c, st, RecordV { src: pf@, dst: dst@ }));
                    }
                    return Ok(dst);
                }
                None => {}
            }
        }

        let method = match &self.method {
            None => {
                return Err(Error::MissingParameter);
            }
            Some(m) => *m,
        };

        match method {
            Method::Random | Method::Uuid | Method::Time => {
                let nbits_val: usize;
                let db: Vec<u8>;
                match method {
                    Method::Random => {
                        match self.nbits {
                            None => {
                                return Err(Error::MissingParameter);
                            }
                            Some(n) => {
                                nbits_val = n;
                                db = Vec::new();
                            }
                        }
                    }
                    Method::Time => {
                        match &self.delimiter {
                            None => {
                                return Err(Error::MissingParameter);
                            }
                            Some(d) => {
                                nbits_val = 0;
                                db = str_to_bytes(d);
                            }
                        }
                    }
                    _ => {
                        nbits_val = 0;
                        db = Vec::new();
                    }
                }
                let mut tries: usize = 0;
                while tries < RETRY_MAX
                    invariant
                        0 <= tries <= RETRY_MAX,
                        map_pf_stem.view() == st.stems,
                        map_pd_cnt.view() == st.counters,
                        map_pf_stem.wf(),
                        map_pd_cnt.wf(),
                    decreases RETRY_MAX - tries,
                {
                    let stem = if matches!(method, Method::Random) {
                        random_stem(nbits_val)
                    } else if matches!(method, Method::Uuid) {
                        uuid_stem()
                    } else {
                        time_stem(&db)
                    };
                    proof {
                        assert(fresh_stem_ok(self@, stem@));
                    }
                    let nn = new_name(&stem, &ext);
                    let p_new = child_path(pd, &nn);
                    if !fs.contains(&p_new) {
                        proof {
                            assert(p_new@ == composed(c, stem@));
                        }
                        if cons {
                            proof {
                                crate::path::lemma_ext_sep(name@);
                            }
                            let chosen = self.chosen_stem_of(&p_new, pd, &name, &ext);
                            map_pf_stem.put_new(&key, chosen);
                        }
                        proof {
                            let rec = RecordV { src: pf@, dst: p_new@ };
                            assert(exists|s: Seq<u8>|
                                fresh_stem_ok(self@, s) && rec.dst == composed(c, s)) by {
                                assert(fresh_stem_ok(self@, stem@) && rec.dst == composed(
                                    c,
                                    stem@,
                                ));
                            }
                            assert(step_ok(self@, c, st, rec));
                        }
                        return Ok(p_new);
                    }
                    tries += 1;
                }
                // every draw within the bound collided: the candidate is
                // left under its original name
                let dst = pf.clone();
                proof {
                    assert(dst@ =~= pf@);
                }
                if cons {
                    proof {
                        crate::path::lemma_ext_sep(name@);
                        assert(pf@.len() == pd@.len() + 1 + name@.len());
                    }
                    let chosen = self.chosen_stem_of(&dst, pd, &name, &ext);
                    map_pf_stem.put_new(&key, chosen);
                }
                proof {
                    assert(step_ok(self@, c, st, RecordV { src: pf@, dst: dst@ }));
                }
                Ok(dst)
            }
            Method::Uppercase | Method::Lowercase => {
                let sb = stem_bytes(&name);
                let stem = if matches!(method, Method::Uppercase) {
                    ascii_upper(&sb)
                } else {
                    ascii_lower(&sb)
                };
                proof {
                    assert(stem@ == det_stem(self@, c, st));
                }
                let nn = new_name(&stem, &ext);
                let dst = child_path(pd, &nn);
                proof {
                    assert(dst@ == composed(c, det_stem(self@, c, st)));
                }
                if cons {
                    proof {
                        crate::path::lemma_ext_sep(name@);
                    }
                    let chosen = self.chosen_stem_of(&dst, pd, &name, &ext);
                    map_pf_stem.put_new(&key, chosen);
                }
                proof {
                    assert(step_ok(self@, c, st, RecordV { src: pf@, dst: dst@ }));
                }
                Ok(dst)
            }
            Method::Num | Method::Znum => {
                let start = match self.start {
                    None => {
                        return Err(Error::MissingParameter);
                    }
                    Some(s) => s,
                };
                if matches!(method, Method::Znum) && self.nbits.is_none() {
                    return Err(Error::MissingParameter);
                }
                if start < 1 {
                    return Err(Error::InvalidParameter);
                }
                let next = match map_pd_cnt.get(pd) {
                    Some(cur) => {
                        match cur.checked_add(1) {
                            None => {
                                return Err(Error::InvalidParameter);
                            }
                            Some(n) => n,
                        }
                    }
                    None => start,
                };
                proof {
                    assert(next as int == next_counter(self@, c, st));
                }
                map_pd_cnt.set(pd, next);
                let digits = dec_bytes(next);
                let stem = if matches!(method, Method::Znum) {
                    let w = self.nbits.unwrap();
                    zpad(&digits, w)
                } else {
                    digits
                };
                proof {
                    assert(stem@ == det_stem(self@, c, st));
                }
                Ok(self.finish_deterministic(pf, pd, &name, &ext, stem, &key, cons,
                    map_pf_stem, fs, Ghost(c), Ghost(st)))
            }
            Method::Prefix | Method::Append => {
                let d = match &self.delimiter {
                    None => {
                        return Err(Error::MissingParameter);
                    }
                    Some(d) => d,
                };
                let w = match &self.with {
                    None => {
                        return Err(Error::MissingParameter);
                    }
                    Some(w) => w,
                };
                let db = str_to_bytes(d);
                let wb = str_to_bytes(w);
                let sb = stem_bytes(&name);
                let stem = if matches!(method, Method::Prefix) {
                    concat_bytes(&concat_bytes(&wb, &db), &sb)
                } else {
                    concat_bytes(&concat_bytes(&sb, &db), &wb)
                };
                proof {
                    assert(stem@ =~= det_stem(self@, c, st));
                }
                Ok(self.finish_deterministic(pf, pd, &name, &ext, stem, &key, cons,
                    map_pf_stem, fs, Ghost(c), Ghost(st)))
            }
        }
    }

    /// The tail of a deterministic generation step: composes the one
    /// possible new path, keeps it when free and the original path when
    /// taken, and records the produced stem for consistency.
    fn finish_deterministic(
        &self,
        pf: &Vec<u8>,
        pd: &Vec<u8>,
        name: &Vec<u8>,
        ext: &Option<Vec<u8>>,
        stem: Vec<u8>,
        key: &Vec<u8>,
        cons: bool,
        map_pf_stem: &mut StemMap,
        fs: &FsModel,
        Ghost(c): Ghost<CandidateV>,
        Ghost(st): Ghost<StateV>,
    ) -> (dst: Vec<u8>)
        requires
            path_under(pf@, pd@),
            c == gen_cand(pd@, pf@),
            name@ == c.name,
            (match ext {
                Some(e) => ext_of(c.name) == Some(e@),
                None => ext_of(c.name) is None,
            }),
            key@ == cand_key(c),
            cons == consistency_active(self@),
            st.fs == fs.view(),
            st.stems == old(map_pf_stem).view(),
            old(map_pf_stem).wf(),
            cons ==> !st.stems.contains_key(cand_key(c)),
            self.method is Some,
            (match self.method->0 {
                Method::Num | Method::Znum | Method::Prefix | Method::Append => stem@
                    == det_stem(self@, c, st),
                _ => false,
            }),
        ensures
            final(map_pf_stem).wf(),
            ({
                let rec = RecordV { src: pf@, dst: dst@ };
                let p = composed(c, det_stem(self@, c, st));
                &&& (if !st.fs.contains(p) {
                    rec.dst == p
                } else {
                    rec.dst == cand_path(c)
                })
                &&& final(map_pf_stem).view() == if cons {
                    st.stems.insert(cand_key(c), dst_stem(c, rec.dst))
                } else {
                    st.stems
                }
            }),
    {
        proof {
            lemma_path_under(pf@, pd@);
        }
        let nn = new_name(&stem, ext);
        let p_new = child_path(pd, &nn);
        proof {
            assert(p_new@ == composed(c, det_stem(self@, c, st)));
        }
        let dst = if !fs.contains(&p_new) {
            p_new
        } else {
            let d = pf.clone();
            proof {
                assert(d@ =~= pf@);
                assert(cand_path(c) == pf@);
            }
            d
        };
        if cons {
            proof {
                crate::path::lemma_ext_sep(name@);
                assert(pf@.len() == pd@.len() + 1 + name@.len());
            }
            let chosen = self.chosen_stem_of(&dst, pd, name, ext);
            map_pf_stem.put_new(key, chosen);
        }
        dst
    }

    /// The stem a produced destination carries, for the consistency map.
    fn chosen_stem_of(
        &self,
        dst: &Vec<u8>,
        pd: &Vec<u8>,
        name: &Vec<u8>,
        ext: &Option<Vec<u8>>,
    ) -> (r: Vec<u8>)
        requires
            (match ext {
                Some(e) => ext_of(name@) == Some(e@),
                None => ext_of(name@) is None,
            }),
            dst@.len() >= pd@.len() + 1,
            (match ext {
                Some(e) => e@.len() > 0 ==> dst@.len() >= pd@.len() + 1 + e@.len() + 1,
                None => true,
            }),
        ensures
            r@ == dst_stem(
                CandidateV { parent: pd@, name: name@, depth: 0, index: 0 },
                dst@,
            ),
    {
        let dl = dst.len();
        proof {
            assert(pd@.len() + 1 <= dl as int);
        }
        let fname = suffix_from(dst, pd.len() + 1);
        match ext {
            Some(e) => {
                if e.len() > 0 {
                    prefix_to(&fname, fname.len() - e.len() - 1)
                } else {
                    fname
                }
            }
            None => fname,
        }
    }
}

pub proof fn lemma_child_path_under(parent: Seq<u8>, name: Seq<u8>)
    requires
        wf_name(name),
    ensures
        path_under(spec_child(parent, name), parent),
        spec_child(parent, name).skip(parent.len() as int + 1) == name,
{
    let pf = spec_child(parent, name);
    assert(pf.take(parent.len() as int) =~= parent);
    assert(pf.skip(parent.len() as int + 1) =~= name);
    assert(pf[parent.len() as int] == sep());
}

/// A step only reads a candidate's parent and name: its depth and walk
/// position change nothing.
pub proof fn lemma_step_same_entry(
    cfg: CfgV,
    c1: CandidateV,
    c2: CandidateV,
    st: StateV,
    rec: RecordV,
)
    requires
        c1.parent == c2.parent,
        c1.name == c2.name,
    ensures
        step_ok(cfg, c1, st, rec) == step_ok(cfg, c2, st, rec),
        step_state(cfg, c1, st, rec) == step_state(cfg, c2, st, rec),
{
    assert(cand_path(c1) == cand_path(c2));
    assert(cand_key(c1) == cand_key(c2));
    assert(dst_stem(c1, rec.dst) == dst_stem(c2, rec.dst));
    assert(forall|s: Seq<u8>| #[trigger] composed(c1, s) == composed(c2, s));
    if cfg.method is Some {
        assert(det_stem(cfg, c1, st) == det_stem(cfg, c2, st));
        assert(next_counter(cfg, c1, st) == next_counter(cfg, c2, st));
    }
    if step_ok(cfg, c1, st, rec) {
        if !step_hit(cfg, c1, st) {
            match cfg.method->0 {
                Method::Random | Method::Uuid | Method::Time => {
                    if rec.dst != cand_path(c1) {
                        let s = choose|s: Seq<u8>|
                            fresh_stem_ok(cfg, s) && rec.dst == composed(c1, s);
                        assert(fresh_stem_ok(cfg, s) && rec.dst == composed(c2, s));
                    }
                }
                _ => {}
            }
        }
        assert(step_ok(cfg, c2, st, rec));
    }
    if step_ok(cfg, c2, st, rec) {
        if !step_hit(cfg, c2, st) {
            match cfg.method->0 {
                Method::Random | Method::Uuid | Method::Time => {
                    if rec.dst != cand_path(c2) {
                        let s = choose|s: Seq<u8>|
                            fresh_stem_ok(cfg, s) && rec.dst == composed(c2, s);
                        assert(fresh_stem_ok(cfg, s) && rec.dst == composed(c1, s));
                    }
                }
                _ => {}
            }
        }
        assert(step_ok(cfg, c1, st, rec));
    }
}

} // verus!
