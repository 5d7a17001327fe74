//! The rename executor and the undo engine.
//!
//! A batch run classifies the source, resolves the target kind, filters
//! and orders the walked entries, validates the configuration against the
//! batch size, and then drives the name generator over every candidate,
//! renaming each in the model and journaling one record per candidate.
//! The undo engine turns a journal back into rename steps, last record
//! first, each step from the recorded destination back to the source.

use vstd::prelude::*;
use vstd::seq_lib::*;
use crate::cli::{Cli, CfgV, with_target, spec_validate};
use crate::discover::{RawEntry, EntryV, Candidate, CandidateV, cands_view, spec_filter};
use crate::discover::{cands_sorted, filter_entries, sort_candidates, lemma_filter_wf};
use crate::error::Error;
use crate::fsmodel::FsModel;
use crate::journal::{spec_format, spec_parse, format_records, parse_journal};
use crate::maps::{CounterMap, StemMap};
use crate::method::Method;
use crate::plan::{Record, RecordV, recs_view, StateV, step_ok, step_state};
use crate::plan::{gen_params_present, gen_start_ok, counter_fits, next_counter, gen_cand};
use crate::plan::{lemma_child_path_under, lemma_step_same_entry, path_under};
use crate::path::{wf_name, child_path};
use crate::target::Target;
use crate::task::Task;

verus! {

/// The engine state before any step: the existing paths, and no stem or
/// counter assigned yet.
pub open spec fn init_state(fs: Set<Seq<u8>>) -> StateV {
    StateV { fs, stems: Map::empty(), counters: Map::empty() }
}

/// The engine state after the first `i` steps of a batch.
pub open spec fn state_at(
    cfg: CfgV,
    cands: Seq<CandidateV>,
    recs: Seq<RecordV>,
    st0: StateV,
    i: int,
) -> StateV
    decreases i,
{
    if i <= 0 {
        st0
    } else {
        step_state(cfg, cands[i - 1], state_at(cfg, cands, recs, st0, i - 1), recs[i - 1])
    }
}

/// A batch trace is acceptable: one record per candidate, and every step
/// acceptable in the state the previous steps produced.
pub open spec fn trace_ok(
    cfg: CfgV,
    cands: Seq<CandidateV>,
    st0: StateV,
    recs: Seq<RecordV>,
) -> bool {
    &&& recs.len() == cands.len()
    &&& forall|i: int|
        0 <= i < cands.len() ==> step_ok(
            cfg,
            cands[i],
            state_at(cfg, cands, recs, st0, i),
            #[trigger] recs[i],
        )
}

/// The state after `i` steps reads only the first `i` records.
pub proof fn lemma_state_at_prefix(
    cfg: CfgV,
    cands: Seq<CandidateV>,
    r1: Seq<RecordV>,
    r2: Seq<RecordV>,
    st0: StateV,
    i: int,
)
    requires
        forall|j: int| 0 <= j < i ==> r1[j] == r2[j],
    ensures
        state_at(cfg, cands, r1, st0, i) == state_at(cfg, cands, r2, st0, i),
    decreases i,
{
    if i > 0 {
        lemma_state_at_prefix(cfg, cands, r1, r2, st0, i - 1);
    }
}

/// What the caller reports of the source path: whether it exists, what
/// kind of entry it is, and its parent and name (used when the source is a
/// single file).
pub struct SourceInfo {
    pub exists: bool,
    pub is_symlink: bool,
    pub is_file: bool,
    pub parent: Vec<u8>,
    pub name: Vec<u8>,
}

/// The mathematical value of a source report.
pub ghost struct SourceInfoV {
    pub exists: bool,
    pub is_symlink: bool,
    pub is_file: bool,
    pub parent: Seq<u8>,
    pub name: Seq<u8>,
}

impl View for SourceInfo {
    type V = SourceInfoV;

    open spec fn view(&self) -> SourceInfoV {
        SourceInfoV {
            exists: self.exists,
            is_symlink: self.is_symlink,
            is_file: self.is_file,
            parent: self.parent@,
            name: self.name@,
        }
    }
}

/// A planned batch: the candidates in processing order, one record per
/// candidate, and the journal text of those records.
#[derive(Debug)]
pub struct RenamePlan {
    pub candidates: Vec<Candidate>,
    pub records: Vec<Record>,
    pub journal: Vec<u8>,
}

/// A planned undo: the rename steps to perform in order, and whether the
/// journal store is empty once the consumed journal is deleted.
#[derive(Debug)]
pub struct UndoPlan {
    pub steps: Vec<Record>,
    pub remove_store: bool,
}

/// The target kind a run resolves to: a file source forces `File`, a
/// directory source uses the configured kind.
pub open spec fn resolved_kind(cfg: CfgV, src: SourceInfoV) -> Target {
    if src.is_file {
        Target::File
    } else {
        cfg.target->0
    }
}

/// How many candidates a run works on.
pub open spec fn spec_ntotal(cfg: CfgV, src: SourceInfoV, entries: Seq<EntryV>) -> nat {
    if src.is_file {
        1
    } else {
        spec_filter(entries, 0, resolved_kind(cfg, src), cfg.recursive->0, cfg.depth).len()
    }
}

/// The error a rename run fails with, or `None` when it can plan: a
/// missing source, a symbolic link as source or target kind, an unresolved
/// target or recursion flag for a directory source, and then — only when
/// any candidate was found at all — the configuration's own validation.
pub open spec fn spec_rename_err(cfg: CfgV, src: SourceInfoV, entries: Seq<EntryV>) -> Option<
    Error,
> {
    if !src.exists {
        Some(Error::SourceNotFound)
    } else if src.is_symlink {
        Some(Error::UnsupportedTarget)
    } else if !src.is_file && cfg.target is None {
        Some(Error::MissingParameter)
    } else if !src.is_file && cfg.target == Some(Target::Symlink) {
        Some(Error::UnsupportedTarget)
    } else if !src.is_file && cfg.recursive is None {
        Some(Error::MissingParameter)
    } else if spec_ntotal(cfg, src, entries) == 0 {
        None
    } else {
        spec_validate(cfg, spec_ntotal(cfg, src, entries))
    }
}

/// What a successful plan guarantees: the candidates are exactly the
/// discovered ones in processing order, the records form an acceptable
/// trace from the given model, and the journal is their text.
pub open spec fn rename_plan_ok(
    cfg: CfgV,
    src: SourceInfoV,
    entries: Seq<EntryV>,
    fs0: Set<Seq<u8>>,
    cands: Seq<CandidateV>,
    recs: Seq<RecordV>,
    journal: Seq<u8>,
) -> bool {
    let kind = resolved_kind(cfg, src);
    &&& (if src.is_file {
        cands == seq![
            CandidateV { parent: src.parent, name: src.name, depth: 0, index: 0 },
        ]
    } else {
        cands.to_multiset() == spec_filter(entries, 0, kind, cfg.recursive->0, cfg.depth)
            .to_multiset() && cands_sorted(cands)
    })
    &&& trace_ok(with_target(cfg, kind), cands, init_state(fs0), recs)
    &&& journal == spec_format(recs)
}

/// The deepest level among walked entries of a target kind; zero when
/// none matches.
pub open spec fn spec_max_depth(s: Seq<EntryV>, kind: Target) -> nat
    decreases s.len(),
{
    if s.len() == 0 {
        0
    } else {
        let rest = spec_max_depth(s.drop_last(), kind);
        let e = s.last();
        let counted = if e.is_dir {
            kind is Dir
        } else if e.is_file {
            kind is File
        } else {
            false
        };
        if counted && e.depth > rest {
            e.depth
        } else {
            rest
        }
    }
}

/// The rename steps that replay a journal: its records reversed, each from
/// the recorded destination back to the recorded source.
pub open spec fn undo_steps(recs: Seq<RecordV>) -> Seq<RecordV> {
    Seq::new(
        recs.len(),
        |i: int| RecordV { src: recs[recs.len() - 1 - i].dst, dst: recs[recs.len() - 1 - i].src },
    )
}

impl Cli {
    /// Drives the generator over the candidates in order, renaming each in
    /// the model and journaling one record per candidate.
    #[verifier::loop_isolation(false)]
    #[verifier::rlimit(60)]
    fn run_batch(&self, cands: &Vec<Candidate>, fs: FsModel) -> (r: Vec<Record>)
        requires
            fs.wf(),
            gen_params_present(self@),
            gen_start_ok(self@),
            (self@.method == Some(Method::Num) || self@.method == Some(Method::Znum))
                ==> self@.start->0 + cands@.len() <= usize::MAX,
            forall|i: int|
                0 <= i < cands@.len() ==> wf_name(#[trigger] cands_view(cands@)[i].name),
        ensures
            trace_ok(self@, cands_view(cands@), init_state(fs.view()), recs_view(r@)),
    {
        let ghost cv = cands_view(cands@);
        let ghost st0 = init_state(fs.view());
        let mut model = fs;
        let mut counters = CounterMap::new();
        let mut stems = StemMap::new();
        let mut recs: Vec<Record> = Vec::new();
        let mut i: usize = 0;
        proof {
            assert(recs_view(recs@) =~= Seq::<RecordV>::empty());
        }
        while i < cands.len()
            invariant
                0 <= i <= cands@.len(),
                recs@.len() == i,
                model.wf(),
                counters.wf(),
                stems.wf(),
                state_at(self@, cv, recs_view(recs@), st0, i as int) == (StateV {
                    fs: model.view(),
                    stems: stems.view(),
                    counters: counters.view(),
                }),
                forall|j: int|
                    0 <= j < i ==> step_ok(
                        self@,
                        cv[j],
                        state_at(self@, cv, recs_view(recs@), st0, j),
                        #[trigger] recs_view(recs@)[j],
                    ),
                (self@.method == Some(Method::Num) || self@.method == Some(Method::Znum))
                    ==> forall|k: Seq<u8>|
                    counters.view().contains_key(k) ==> #[trigger] counters.view()[k]
                        < self@.start->0 + i,
            decreases cands@.len() - i,
        {
            let c = &cands[i];
            let pf = child_path(&c.parent, &c.name);
            proof {
                assert(cv[i as int] == cands@[i as int]@);
                assert(wf_name(cands_view(cands@)[i as int].name));
                assert(cands_view(cands@)[i as int].name == c.name@);
                assert(wf_name(c.name@));
                lemma_child_path_under(c.parent@, c.name@);
                assert(path_under(pf@, c.parent@));
                assert(gen_cand(c.parent@, pf@) == CandidateV {
                    parent: c.parent@,
                    name: c.name@,
                    depth: 0,
                    index: 0,
                });
            }
            let ghost st_i = StateV {
                fs: model.view(),
                stems: stems.view(),
                counters: counters.view(),
            };
            let ghost rv_pre = recs_view(recs@);
            let dst = match self.gen_uniq(&pf, &c.parent, &mut counters, &mut stems, &model) {
                Ok(d) => d,
                Err(_) => {
                    proof {
                        // validation put every parameter in place and kept
                        // the counters in range, so the generator cannot
                        // fail here
                        assert(counter_fits(self@, gen_cand(c.parent@, pf@), st_i));
                        assert(false);
                    }
                    pf.clone()
                }
            };
            let ghost rec = RecordV { src: pf@, dst: dst@ };
            model.rename(&pf, &dst);
            recs.push(Record { src: pf, dst });
            proof {
                let gc = gen_cand(cands@[i as int]@.parent, rec.src);
                lemma_step_same_entry(self@, gc, cv[i as int], st_i, rec);
                assert(recs@.len() == i + 1);
                assert(recs_view(recs@) =~= rv_pre.push(rec));
                assert(forall|j: int| 0 <= j < i ==> recs_view(recs@)[j] == rv_pre[j]);
                lemma_state_at_prefix(self@, cv, recs_view(recs@), rv_pre, st0, i as int);
                assert(state_at(self@, cv, recs_view(recs@), st0, i as int) == st_i);
                assert(recs_view(recs@)[i as int] == rec);
                assert(state_at(self@, cv, recs_view(recs@), st0, i + 1) == step_state(
                    self@,
                    cv[i as int],
                    st_i,
                    rec,
                ));
                assert(step_state(self@, cv[i as int], st_i, rec) == StateV {
                    fs: model.view(),
                    stems: stems.view(),
                    counters: counters.view(),
                });
                assert(step_ok(self@, cv[i as int], st_i, rec));
                assert forall|j: int| 0 <= j < i + 1 implies step_ok(
                    self@,
                    cv[j],
                    state_at(self@, cv, recs_view(recs@), st0, j),
                    #[trigger] recs_view(recs@)[j],
                ) by {
                    if j < i {
                        lemma_state_at_prefix(self@, cv, recs_view(recs@), rv_pre, st0, j);
                    }
                }
                if self@.method == Some(Method::Num) || self@.method == Some(Method::Znum) {
                    assert forall|k: Seq<u8>| counters.view().contains_key(k)
                        implies #[trigger] counters.view()[k] < self@.start->0 + (i + 1) by {
                        if k == cands@[i as int]@.parent
                            && counters.view() == st_i.counters.insert(
                            k,
                            next_counter(self@, cv[i as int], st_i) as usize,
                        ) {
                        }
                    }
                }
            }
            i += 1;
        }
        proof {
            assert(cv.len() == recs_view(recs@).len());
        }
        recs
    }

    /// Plans one batch of renames.
    ///
    /// `source` reports what the caller found at the source path; `entries`
    /// is the walk of the source tree (ignored when the source is a single
    /// file); `fs` models every path that exists in the directories the
    /// batch can touch.  On success the plan holds the candidates in
    /// processing order, one record per candidate forming an acceptable
    /// trace, and the journal text; the error cases are exactly those of
    /// `spec_rename_err`.
    pub fn rename(&self, source: SourceInfo, entries: Vec<RawEntry>, fs: FsModel) -> (r:
        Result<RenamePlan, Error>)
        requires
            fs.wf(),
            source@.is_file ==> wf_name(source@.name),
        ensures
            ({
                let ev = entries@.map_values(|e: RawEntry| e@);
                match r {
                    Err(e) => spec_rename_err(self@, source@, ev) == Some(e),
                    Ok(plan) => {
                        &&& spec_rename_err(self@, source@, ev) is None
                        &&& rename_plan_ok(self@, source@, ev, fs.view(),
                            cands_view(plan.candidates@), recs_view(plan.records@),
                            plan.journal@)
                    }
                }
            }),
    {
        let ghost ev = entries@.map_values(|e: RawEntry| e@);
        if !source.exists {
            return Err(Error::SourceNotFound);
        }
        if source.is_symlink {
            return Err(Error::UnsupportedTarget);
        }
        let kind: Target;
        if source.is_file {
            kind = Target::File;
        } else {
            match self.target {
                None => {
                    return Err(Error::MissingParameter);
                }
                Some(Target::Symlink) => {
                    return Err(Error::UnsupportedTarget);
                }
                Some(k) => {
                    kind = k;
                }
            }
            if self.recursive.is_none() {
                return Err(Error::MissingParameter);
            }
        }
        proof {
            assert(kind == resolved_kind(self@, source@));
        }
        let candidates: Vec<Candidate>;
        if source.is_file {
            let c = Candidate {
                parent: source.parent,
                name: source.name,
                depth: 0,
                index: 0,
            };
            let mut v: Vec<Candidate> = Vec::new();
            v.push(c);
            proof {
                assert(cands_view(v@) =~= seq![
                    CandidateV { parent: source@.parent, name: source@.name, depth: 0, index: 0 },
                ]);
            }
            candidates = v;
        } else {
            let recursive = self.recursive.unwrap();
            let filtered = filter_entries(entries, kind, recursive, self.depth);
            proof {
                lemma_filter_wf(ev, 0, kind, recursive, self.depth);
                cands_view(filtered@).to_multiset_ensures();
            }
            let sorted = sort_candidates(filtered);
            proof {
                cands_view(sorted@).to_multiset_ensures();
                assert(cands_view(sorted@).len() == cands_view(sorted@).to_multiset().len());
                let fv = spec_filter(ev, 0, kind, recursive, self.depth);
                assert(cands_view(sorted@).len() == fv.len());
                assert forall|i: int| 0 <= i < cands_view(sorted@).len()
                    implies wf_name(#[trigger] cands_view(sorted@)[i].name) by {
                    let x = cands_view(sorted@)[i];
                    assert(cands_view(sorted@).contains(x));
                    assert(cands_view(sorted@).to_multiset().count(x) > 0);
                    assert(fv.to_multiset().count(x) > 0);
                    fv.to_multiset_ensures();
                    assert(fv.contains(x));
                    let j = choose|j: int| 0 <= j < fv.len() && fv[j] == x;
                    assert(wf_name(fv[j].name));
                }
            }
            candidates = sorted;
        }
        let ntotal = candidates.len();
        proof {
            assert(ntotal as nat == spec_ntotal(self@, source@, ev));
        }
        if ntotal == 0 {
            let plan = RenamePlan {
                candidates,
                records: Vec::new(),
                journal: Vec::new(),
            };
            proof {
                assert(recs_view(plan.records@) =~= Seq::<RecordV>::empty());
                assert(plan.journal@ =~= spec_format(recs_view(plan.records@)));
            }
            return Ok(plan);
        }
        match self.validate(ntotal) {
            Err(e) => {
                return Err(e);
            }
            Ok(()) => {}
        }
        // the generator reads the resolved target kind from the
        // configuration, so the batch runs under one with it filled in
        let cfg2 = Cli {
            input: self.input.clone(),
            target: Some(kind),
            task: self.task,
            method: self.method,
            recursive: self.recursive,
            depth: self.depth,
            nbits: self.nbits,
            start: self.start,
            with: self.with.clone(),
            delimiter: self.delimiter.clone(),
            indiscriminate: self.indiscriminate,
            yes: self.yes,
        };
        proof {
            assert(cfg2@ == with_target(self@, kind));
        }
        let ghost fsv = fs.view();
        let records = cfg2.run_batch(&candidates, fs);
        let journal = format_records(&records);
        let plan = RenamePlan { candidates, records, journal };
        Ok(plan)
    }

    /// The deepest level at which a walked entry of the configured target
    /// kind sits: the bound a configuration resolver offers when asking
    /// for the depth parameter.
    #[verifier::loop_isolation(false)]
    pub fn max_depth(&self, entries: &Vec<RawEntry>) -> (r: usize)
        requires
            self.target is Some,
        ensures
            r as nat == spec_max_depth(
                entries@.map_values(|e: RawEntry| e@),
                self@.target->0,
            ),
    {
        let ghost ev = entries@.map_values(|e: RawEntry| e@);
        let kind = self.target.unwrap();
        let mut r: usize = 0;
        let mut i: usize = 0;
        proof {
            assert(ev.take(0) =~= Seq::<EntryV>::empty());
        }
        while i < entries.len()
            invariant
                0 <= i <= entries@.len(),
                r as nat == spec_max_depth(ev.take(i as int), self@.target->0),
            decreases entries@.len() - i,
        {
            let e = &entries[i];
            let counted = if e.is_dir {
                matches!(kind, Target::Dir)
            } else if e.is_file {
                matches!(kind, Target::File)
            } else {
                false
            };
            if counted && e.depth > r {
                r = e.depth;
            }
            proof {
                assert(ev.take(i + 1).drop_last() =~= ev.take(i as int));
                assert(ev.take(i + 1).last() == ev[i as int]);
            }
            i += 1;
        }
        proof {
            assert(ev.take(ev.len() as int) =~= ev);
        }
        r
    }

    /// Plans the undo of one journal.
    ///
    /// `journals` holds the discovered journal texts, newest first, and
    /// `selected` the one to replay.  With no journal left the call fails
    /// with `NoJournalFound`; a malformed journal fails with
    /// `JournalCorrupt` and the index of its first bad line.  On success
    /// the steps replay the records in reverse, each from its recorded
    /// destination back to its source, and `remove_store` says whether the
    /// store is empty once the consumed journal is deleted.
    pub fn undo(&self, journals: &Vec<Vec<u8>>, selected: usize) -> (r: Result<UndoPlan, Error>)
        requires
            journals@.len() > 0 ==> selected < journals@.len(),
        ensures
            journals@.len() == 0 ==> r == Err::<UndoPlan, Error>(Error::NoJournalFound),
            journals@.len() > 0 ==> match spec_parse(journals@[selected as int]@, 0) {
                Err(n) => {
                    &&& r is Err
                    &&& r->Err_0 matches Error::JournalCorrupt { line } && line as int == n
                }
                Ok(rs) => {
                    &&& r is Ok
                    &&& recs_view(r->Ok_0.steps@) == undo_steps(rs)
                    &&& r->Ok_0.remove_store == (journals@.len() == 1)
                }
            },
    {
        if journals.len() == 0 {
            return Err(Error::NoJournalFound);
        }
        let text = &journals[selected];
        let mut recs = match parse_journal(text) {
            Err(e) => {
                return Err(e);
            }
            Ok(rs) => rs,
        };
        let ghost orig = recs_view(recs@);
        let mut steps: Vec<Record> = Vec::new();
        proof {
            assert(recs_view(steps@) =~= Seq::<RecordV>::empty());
            assert(recs_view(steps@) =~= undo_steps(orig).take(0));
        }
        while recs.len() > 0
            invariant
                recs_view(recs@) == orig.take(recs@.len() as int),
                steps@.len() + recs@.len() == orig.len(),
                recs_view(steps@) == undo_steps(orig).take(steps@.len() as int),
            decreases recs@.len(),
        {
            let ghost pre = recs@;
            let r = match recs.pop() {
                Some(r) => r,
                None => {
                    proof {
                        assert(false);
                    }
                    return Err(Error::NoJournalFound);
                }
            };
            proof {
                assert(recs_view(recs@) =~= orig.take(recs@.len() as int));
                assert(r == pre.last());
                assert(r@ == recs_view(pre)[pre.len() - 1]);
                assert(recs_view(pre) == orig.take(pre.len() as int));
                assert(r@ == orig[pre.len() - 1]);
            }
            let ghost spre = steps@;
            steps.push(Record { src: r.dst, dst: r.src });
            proof {
                assert(recs_view(steps@) =~= recs_view(spre).push(steps@.last()@));
                assert(steps@.last()@ == undo_steps(orig)[spre.len() as int]);
                assert(recs_view(steps@) =~= undo_steps(orig).take(steps@.len() as int));
            }
        }
        proof {
            assert(undo_steps(orig).take(steps@.len() as int) =~= undo_steps(orig));
        }
        Ok(UndoPlan { steps, remove_store: journals.len() == 1 })
    }

    /// Runs the configured task: plans a batch of renames, or the undo of
    /// a journal.  Without a task the run fails with `MissingParameter`,
    /// planning nothing.
    pub fn run(&self, input: RunInput) -> (r: Result<RunOutcome, Error>)
        requires
            (match input {
                RunInput::Rename { ref source, ref fs, .. } => fs.wf() && (source@.is_file
                    ==> wf_name(source@.name)),
                RunInput::Undo { ref journals, selected } => journals@.len() > 0 ==> selected
                    < journals@.len(),
            }),
            (match self.task {
                Some(Task::Rename) => input is Rename,
                Some(Task::Undo) => input is Undo,
                None => true,
            }),
        ensures
            self@.task is None ==> r == Err::<RunOutcome, Error>(Error::MissingParameter),
            (match input {
                RunInput::Rename { ref source, ref entries, ref fs } => self@.task == Some(
                    Task::Rename,
                ) ==> {
                    let ev = entries@.map_values(|e: RawEntry| e@);
                    match r {
                        Err(e) => spec_rename_err(self@, source@, ev) == Some(e),
                        Ok(out) => {
                            &&& out is Renamed
                            &&& spec_rename_err(self@, source@, ev) is None
                            &&& rename_plan_ok(self@, source@, ev, fs.view(),
                                cands_view(out->Renamed_0.candidates@),
                                recs_view(out->Renamed_0.records@), out->Renamed_0.journal@)
                        }
                    }
                },
                RunInput::Undo { ref journals, selected } => self@.task == Some(Task::Undo)
                    ==> {
                    &&& journals@.len() == 0 ==> r == Err::<RunOutcome, Error>(
                        Error::NoJournalFound,
                    )
                    &&& journals@.len() > 0 ==> match spec_parse(
                        journals@[selected as int]@,
                        0,
                    ) {
                        Err(n) => {
                            &&& r is Err
                            &&& r->Err_0 matches Error::JournalCorrupt { line } && line as int
                                == n
                        }
                        Ok(rs) => {
                            &&& r is Ok
                            &&& r->Ok_0 is Undone
                            &&& recs_view(r->Ok_0->Undone_0.steps@) == undo_steps(rs)
                            &&& r->Ok_0->Undone_0.remove_store == (journals@.len() == 1)
                        }
                    }
                },
            }),
    {
        match &self.task {
            None => Err(Error::MissingParameter),
            Some(Task::Rename) => {
                match input {
                    RunInput::Rename { source, entries, fs } => {
                        match self.rename(source, entries, fs) {
                            Ok(plan) => Ok(RunOutcome::Renamed(plan)),
                            Err(e) => Err(e),
                        }
                    }
                    RunInput::Undo { .. } => Err(Error::MissingParameter),
                }
            }
            Some(Task::Undo) => {
                match input {
                    RunInput::Undo { journals, selected } => {
                        match self.undo(&journals, selected) {
                            Ok(plan) => Ok(RunOutcome::Undone(plan)),
                            Err(e) => Err(e),
                        }
                    }
                    RunInput::Rename { .. } => Err(Error::MissingParameter),
                }
            }
        }
    }
}

/// What a run works on: the inputs of a rename plan, or the journals an
/// undo chooses from.
pub enum RunInput {
    Rename { source: SourceInfo, entries: Vec<RawEntry>, fs: FsModel },
    Undo { journals: Vec<Vec<u8>>, selected: usize },
}

/// What a run produced.
#[derive(Debug)]
pub enum RunOutcome {
    Renamed(RenamePlan),
    Undone(UndoPlan),
}

} // verus!
