//! The engine's laws: what holds of every acceptable batch trace.
//!
//! Each proof function here states a property of whole runs — reversal
//! through the journal, stem consistency, per-directory numbering,
//! collision avoidance — over the same trace specification the executor
//! is proved to satisfy.

use vstd::prelude::*;
use crate::batch::{trace_ok, state_at, init_state, undo_steps, rename_plan_ok};
use crate::batch::{resolved_kind, SourceInfoV};
use crate::cli::{CfgV, with_target};
use crate::discover::EntryV;
use crate::discover::CandidateV;
use crate::method::Method;
use crate::plan::{RecordV, StateV, step_ok, step_hit, cand_path, cand_key};
use crate::plan::{composed, dst_stem, consistency_active, next_counter};
use crate::bytes::{spec_dec, spec_zpad};
use crate::journal::{spec_format, spec_parse, rec_journalable, lemma_parse_format};
use crate::path::{spec_new_name, ext_of};

verus! {

/// The model of existing paths after a sequence of renames, applied in
/// order: each record's source stops existing and its destination starts.
pub open spec fn apply_recs(fs: Set<Seq<u8>>, recs: Seq<RecordV>) -> Set<Seq<u8>>
    decreases recs.len(),
{
    if recs.len() == 0 {
        fs
    } else {
        apply_recs(fs.remove(recs[0].src).insert(recs[0].dst), recs.drop_first())
    }
}

proof fn lemma_apply_recs_push(fs: Set<Seq<u8>>, recs: Seq<RecordV>, r: RecordV)
    ensures
        apply_recs(fs, recs.push(r)) == apply_recs(fs, recs).remove(r.src).insert(r.dst),
    decreases recs.len(),
{
    if recs.len() == 0 {
        assert(recs.push(r)[0] == r);
        assert(recs.push(r).drop_first() =~= Seq::<RecordV>::empty());
        assert(apply_recs(fs, recs.push(r)) == apply_recs(
            fs.remove(r.src).insert(r.dst),
            Seq::<RecordV>::empty(),
        ));
        assert(apply_recs(fs.remove(r.src).insert(r.dst), Seq::<RecordV>::empty())
            == fs.remove(r.src).insert(r.dst));
        assert(apply_recs(fs, recs) == fs);
    } else {
        assert(recs.push(r)[0] == recs[0]);
        assert(recs.push(r).drop_first() =~= recs.drop_first().push(r));
        let fs1 = fs.remove(recs[0].src).insert(recs[0].dst);
        lemma_apply_recs_push(fs1, recs.drop_first(), r);
        assert(apply_recs(fs, recs.push(r)) == apply_recs(fs1, recs.drop_first().push(r)));
        assert(apply_recs(fs, recs) == apply_recs(fs1, recs.drop_first()));
    }
}

/// The filesystem part of the trace state is the fold of the records.
pub proof fn lemma_state_fs_is_apply(
    cfg: CfgV,
    cands: Seq<CandidateV>,
    recs: Seq<RecordV>,
    st0: StateV,
    i: int,
)
    requires
        0 <= i <= recs.len(),
    ensures
        state_at(cfg, cands, recs, st0, i).fs == apply_recs(st0.fs, recs.take(i)),
    decreases i,
{
    if i == 0 {
        assert(recs.take(0) =~= Seq::<RecordV>::empty());
    } else {
        lemma_state_fs_is_apply(cfg, cands, recs, st0, i - 1);
        assert(recs.take(i) =~= recs.take(i - 1).push(recs[i - 1]));
        lemma_apply_recs_push(st0.fs, recs.take(i - 1), recs[i - 1]);
    }
}

/// Every step of a batch moves a present path to a free one (or leaves it
/// in place): the shape reversal relies on.
pub open spec fn batch_steps_wf(fs0: Set<Seq<u8>>, recs: Seq<RecordV>) -> bool {
    forall|i: int|
        0 <= i < recs.len() ==> {
            let fsi = apply_recs(fs0, recs.take(i));
            fsi.contains((#[trigger] recs[i]).src) && (recs[i].dst == recs[i].src
                || !fsi.contains(recs[i].dst))
        }
}

/// A step that may land on an existing name: a consistency reuse, or a
/// case fold — neither consults the existence model.
pub open spec fn step_unchecked(cfg: CfgV, c: CandidateV, st: StateV) -> bool {
    step_hit(cfg, c, st) || cfg.method->0 is Uppercase || cfg.method->0 is Lowercase
}

/// Replaying a well-shaped batch in reverse restores the initial model
/// exactly: no entry is left at an intermediate state.
pub proof fn lemma_undo_restores(fs0: Set<Seq<u8>>, recs: Seq<RecordV>)
    requires
        batch_steps_wf(fs0, recs),
    ensures
        apply_recs(apply_recs(fs0, recs), undo_steps(recs)) == fs0,
    decreases recs.len(),
{
    if recs.len() == 0 {
        assert(undo_steps(recs).len() == 0);
    } else {
        let r = recs[0];
        let rest = recs.drop_first();
        let fs1 = fs0.remove(r.src).insert(r.dst);
        assert(recs.take(0) =~= Seq::<RecordV>::empty());
        assert(fs0.contains(r.src));
        assert(r.dst == r.src || !fs0.contains(r.dst));
        // the tail is well-shaped over the state after the first step
        assert forall|i: int| 0 <= i < rest.len() implies {
            let fsi = apply_recs(fs1, rest.take(i));
            fsi.contains((#[trigger] rest[i]).src) && (rest[i].dst == rest[i].src
                || !fsi.contains(rest[i].dst))
        } by {
            assert(recs.take(i + 1)[0] == r);
            assert(recs.take(i + 1).drop_first() =~= rest.take(i));
            assert(apply_recs(fs0, recs.take(i + 1)) == apply_recs(fs1, rest.take(i)));
            assert(rest[i] == recs[i + 1]);
        }
        lemma_undo_restores(fs1, rest);
        // the reversed steps are the tail's reversal, then the first
        // record's inverse
        let inv = RecordV { src: r.dst, dst: r.src };
        assert(undo_steps(recs) =~= undo_steps(rest).push(inv));
        lemma_apply_recs_push(apply_recs(fs1, rest), undo_steps(rest), inv);
        assert(apply_recs(fs0, recs) == apply_recs(fs1, rest));
        assert(apply_recs(apply_recs(fs0, recs), undo_steps(recs)) == fs1.remove(r.dst).insert(
            r.src,
        ));
        if r.dst == r.src {
            assert(fs1 =~= fs0);
            assert(fs1.remove(r.dst).insert(r.src) =~= fs0);
        } else {
            assert(fs1.remove(r.dst) =~= fs0.remove(r.src));
            assert(fs1.remove(r.dst).insert(r.src) =~= fs0);
        }
    }
}

/// Candidate paths stay present until their own step: earlier steps move
/// other paths and only add names.
proof fn lemma_cand_paths_present(
    cfg: CfgV,
    cands: Seq<CandidateV>,
    recs: Seq<RecordV>,
    st0: StateV,
    i: int,
)
    requires
        trace_ok(cfg, cands, st0, recs),
        forall|k: int| 0 <= k < cands.len() ==> st0.fs.contains(cand_path(#[trigger] cands[k])),
        forall|k: int, l: int|
            0 <= k < l < cands.len() ==> cand_path(#[trigger] cands[k]) != cand_path(
                #[trigger] cands[l],
            ),
        0 <= i <= cands.len(),
    ensures
        forall|k: int|
            i <= k < cands.len() ==> state_at(cfg, cands, recs, st0, i).fs.contains(cand_path(
                #[trigger] cands[k],
            )),
    decreases i,
{
    if i > 0 {
        lemma_cand_paths_present(cfg, cands, recs, st0, i - 1);
        let stp = state_at(cfg, cands, recs, st0, i - 1);
        assert(step_ok(cfg, cands[i - 1], stp, recs[i - 1]));
        assert(recs[i - 1].src == cand_path(cands[i - 1]));
        assert forall|k: int| i <= k < cands.len() implies state_at(
            cfg,
            cands,
            recs,
            st0,
            i,
        ).fs.contains(cand_path(#[trigger] cands[k])) by {
            assert(stp.fs.contains(cand_path(cands[k])));
            assert(cand_path(cands[k]) != cand_path(cands[i - 1]));
        }
    }
}

/// **Reversal**: a batch whose trace is acceptable, over distinct present
/// candidates, and whose unchecked steps (consistency reuses and case
/// folds) landed on no existing name, is exactly reversed by replaying its
/// records backwards.
pub proof fn lemma_trace_reversible(
    cfg: CfgV,
    cands: Seq<CandidateV>,
    recs: Seq<RecordV>,
    fs0: Set<Seq<u8>>,
)
    requires
        trace_ok(cfg, cands, init_state(fs0), recs),
        forall|k: int| 0 <= k < cands.len() ==> fs0.contains(cand_path(#[trigger] cands[k])),
        forall|k: int, l: int|
            0 <= k < l < cands.len() ==> cand_path(#[trigger] cands[k]) != cand_path(
                #[trigger] cands[l],
            ),
        forall|k: int|
            0 <= k < cands.len() && step_unchecked(
                cfg,
                cands[k],
                state_at(cfg, cands, recs, init_state(fs0), k),
            ) ==> ((#[trigger] recs[k]).dst == recs[k].src || !state_at(
                cfg,
                cands,
                recs,
                init_state(fs0),
                k,
            ).fs.contains(recs[k].dst)),
    ensures
        recs.len() == cands.len(),
        apply_recs(apply_recs(fs0, recs), undo_steps(recs)) == fs0,
{
    let st0 = init_state(fs0);
    assert forall|i: int| 0 <= i < recs.len() implies {
        let fsi = apply_recs(fs0, recs.take(i));
        fsi.contains((#[trigger] recs[i]).src) && (recs[i].dst == recs[i].src
            || !fsi.contains(recs[i].dst))
    } by {
        let sti = state_at(cfg, cands, recs, st0, i);
        lemma_state_fs_is_apply(cfg, cands, recs, st0, i);
        lemma_cand_paths_present(cfg, cands, recs, st0, i);
        assert(step_ok(cfg, cands[i], sti, recs[i]));
        assert(recs[i].src == cand_path(cands[i]));
        assert(sti.fs.contains(recs[i].src));
        if !step_unchecked(cfg, cands[i], sti) {
            if recs[i].dst != cand_path(cands[i]) {
                assert(!sti.fs.contains(recs[i].dst));
            }
        }
    }
    lemma_undo_restores(fs0, recs);
}

/// Taking a produced destination's stem back off recovers the stem it was
/// composed from.
pub proof fn lemma_dst_stem_composed(c: CandidateV, s: Seq<u8>)
    ensures
        dst_stem(c, composed(c, s)) == s,
{
    let nn = spec_new_name(s, ext_of(c.name));
    assert(composed(c, s).skip(c.parent.len() as int + 1) =~= nn);
    match ext_of(c.name) {
        Some(e) => {
            if e.len() > 0 {
                assert(nn.take(nn.len() - e.len() - 1) =~= s);
            }
        }
        None => {}
    }
}

/// The consistency map tracks, for every handled candidate, the stem its
/// destination carries; nothing later overwrites an entry.
proof fn lemma_stems_track(
    cfg: CfgV,
    cands: Seq<CandidateV>,
    recs: Seq<RecordV>,
    st0: StateV,
    i: int,
)
    requires
        trace_ok(cfg, cands, st0, recs),
        consistency_active(cfg),
        st0.stems == Map::<Seq<u8>, Seq<u8>>::empty(),
        0 <= i <= cands.len(),
    ensures
        forall|k: int|
            0 <= k < i ==> {
                let stems = state_at(cfg, cands, recs, st0, i).stems;
                stems.contains_key(cand_key(#[trigger] cands[k])) && stems[cand_key(cands[k])]
                    == dst_stem(cands[k], recs[k].dst)
            },
    decreases i,
{
    if i > 0 {
        lemma_stems_track(cfg, cands, recs, st0, i - 1);
        let stp = state_at(cfg, cands, recs, st0, i - 1);
        let c = cands[i - 1];
        let rec = recs[i - 1];
        assert(step_ok(cfg, c, stp, rec));
        if step_hit(cfg, c, stp) {
            // the recorded stem is reused, and extracting it from the
            // produced destination gives it back
            lemma_dst_stem_composed(c, stp.stems[cand_key(c)]);
            assert(state_at(cfg, cands, recs, st0, i).stems == stp.stems);
            assert(stp.stems.contains_key(cand_key(c)));
            // the key was recorded by some earlier candidate, whose value
            // the induction hypothesis pins
            assert(dst_stem(c, rec.dst) == stp.stems[cand_key(c)]);
        } else {
            assert(state_at(cfg, cands, recs, st0, i).stems == stp.stems.insert(
                cand_key(c),
                dst_stem(c, rec.dst),
            ));
        }
    }
}

/// **Stem consistency**: with consistency active, two candidates sharing
/// an extension-stripped path receive the same new stem, whatever the
/// naming method.
pub proof fn lemma_stem_consistency(
    cfg: CfgV,
    cands: Seq<CandidateV>,
    recs: Seq<RecordV>,
    st0: StateV,
    i: int,
    j: int,
)
    requires
        trace_ok(cfg, cands, st0, recs),
        consistency_active(cfg),
        st0.stems == Map::<Seq<u8>, Seq<u8>>::empty(),
        0 <= i < j < cands.len(),
        cand_key(cands[i]) == cand_key(cands[j]),
    ensures
        dst_stem(cands[i], recs[i].dst) == dst_stem(cands[j], recs[j].dst),
{
    lemma_stems_track(cfg, cands, recs, st0, j + 1);
    let stems = state_at(cfg, cands, recs, st0, j + 1).stems;
    assert(stems[cand_key(cands[i])] == dst_stem(cands[i], recs[i].dst));
    assert(stems[cand_key(cands[j])] == dst_stem(cands[j], recs[j].dst));
}

/// How many of the first `i` candidates sit in directory `p`.
pub open spec fn count_dir(cands: Seq<CandidateV>, p: Seq<u8>, i: int) -> int
    decreases i,
{
    if i <= 0 {
        0
    } else {
        count_dir(cands, p, i - 1) + if cands[i - 1].parent == p {
            1int
        } else {
            0int
        }
    }
}

proof fn lemma_count_dir_bound(cands: Seq<CandidateV>, p: Seq<u8>, i: int)
    ensures
        i >= 0 ==> count_dir(cands, p, i) <= i,
        0 <= count_dir(cands, p, i),
    decreases i,
{
    if i > 0 {
        lemma_count_dir_bound(cands, p, i - 1);
    }
}

/// The numbered stem a directory's `n`-th assignment produces.
pub open spec fn num_stem(cfg: CfgV, n: int) -> Seq<u8> {
    if cfg.method == Some(Method::Znum) {
        spec_zpad(spec_dec(n as nat), cfg.nbits->0 as nat)
    } else {
        spec_dec(n as nat)
    }
}

/// The counters of a numbered batch: after `i` steps each touched
/// directory holds `start - 1` plus the number of its candidates so far.
proof fn lemma_counters_track(
    cfg: CfgV,
    cands: Seq<CandidateV>,
    recs: Seq<RecordV>,
    st0: StateV,
    i: int,
)
    requires
        trace_ok(cfg, cands, st0, recs),
        !consistency_active(cfg),
        st0.counters == Map::<Seq<u8>, usize>::empty(),
        cfg.method == Some(Method::Num) || cfg.method == Some(Method::Znum),
        cfg.start is Some,
        cfg.start->0 >= 1,
        cfg.start->0 + cands.len() <= usize::MAX,
        0 <= i <= cands.len(),
    ensures
        forall|p: Seq<u8>|
            state_at(cfg, cands, recs, st0, i).counters.contains_key(p) <==> count_dir(
                cands,
                p,
                i,
            ) > 0,
        forall|p: Seq<u8>|
            count_dir(cands, p, i) > 0 ==> #[trigger] state_at(
                cfg,
                cands,
                recs,
                st0,
                i,
            ).counters[p] == cfg.start->0 + count_dir(cands, p, i) - 1,
    decreases i,
{
    if i > 0 {
        lemma_counters_track(cfg, cands, recs, st0, i - 1);
        let stp = state_at(cfg, cands, recs, st0, i - 1);
        let c = cands[i - 1];
        let rec = recs[i - 1];
        assert(step_ok(cfg, c, stp, rec));
        assert(!step_hit(cfg, c, stp));
        lemma_count_dir_bound(cands, c.parent, i - 1);
        assert(next_counter(cfg, c, stp) == cfg.start->0 + count_dir(cands, c.parent, i) - 1);
        assert(state_at(cfg, cands, recs, st0, i).counters == stp.counters.insert(
            c.parent,
            next_counter(cfg, c, stp) as usize,
        ));
        assert(0 <= next_counter(cfg, c, stp) <= usize::MAX as int) by {
            lemma_count_dir_bound(cands, c.parent, i);
        }
        assert(next_counter(cfg, c, stp) as usize as int == next_counter(cfg, c, stp));
        assert forall|p: Seq<u8>|
            state_at(cfg, cands, recs, st0, i).counters.contains_key(p) <==> count_dir(
                cands,
                p,
                i,
            ) > 0 by {
            if p != c.parent {
                assert(count_dir(cands, p, i) == count_dir(cands, p, i - 1));
            }
        }
        assert forall|p: Seq<u8>| count_dir(cands, p, i) > 0 implies #[trigger] state_at(
            cfg,
            cands,
            recs,
            st0,
            i,
        ).counters[p] == cfg.start->0 + count_dir(cands, p, i) - 1 by {
            if p == c.parent {
                assert(state_at(cfg, cands, recs, st0, i).counters[p] == next_counter(
                    cfg,
                    c,
                    stp,
                ) as usize);
            } else {
                assert(count_dir(cands, p, i) == count_dir(cands, p, i - 1));
                assert(state_at(cfg, cands, recs, st0, i).counters[p] == stp.counters[p]);
            }
        }
    }
}

/// **Per-directory numbering**: under a numbered method with consistency
/// off, the `k`-th candidate of a directory is offered the stem numbered
/// `start + k - 1`, independent of where its directory sits in the global
/// order; a candidate whose offered name was taken keeps its own path.
pub proof fn lemma_per_directory_numbering(
    cfg: CfgV,
    cands: Seq<CandidateV>,
    recs: Seq<RecordV>,
    st0: StateV,
    i: int,
)
    requires
        trace_ok(cfg, cands, st0, recs),
        !consistency_active(cfg),
        st0.counters == Map::<Seq<u8>, usize>::empty(),
        cfg.method == Some(Method::Num) || cfg.method == Some(Method::Znum),
        cfg.start is Some,
        cfg.start->0 >= 1,
        cfg.start->0 + cands.len() <= usize::MAX,
        0 <= i < cands.len(),
    ensures
        recs[i].dst == composed(
            cands[i],
            num_stem(cfg, cfg.start->0 + count_dir(cands, cands[i].parent, i)),
        ) || recs[i].dst == cand_path(cands[i]),
{
    lemma_counters_track(cfg, cands, recs, st0, i);
    let sti = state_at(cfg, cands, recs, st0, i);
    let c = cands[i];
    assert(step_ok(cfg, c, sti, recs[i]));
    assert(!step_hit(cfg, c, sti));
    lemma_count_dir_bound(cands, c.parent, i);
    assert(count_dir(cands, c.parent, i + 1) == count_dir(cands, c.parent, i) + 1);
    assert(next_counter(cfg, c, sti) == cfg.start->0 + count_dir(cands, c.parent, i));
}

/// **Collision avoidance**: outside a consistency hit and the case-fold
/// methods, a step never produces a destination that already existed —
/// the one exception being the candidate's own path, kept when its
/// deterministic name was taken or every fresh draw collided.
pub proof fn lemma_collision_avoidance(
    cfg: CfgV,
    cands: Seq<CandidateV>,
    recs: Seq<RecordV>,
    st0: StateV,
    i: int,
)
    requires
        trace_ok(cfg, cands, st0, recs),
        0 <= i < cands.len(),
        !step_unchecked(cfg, cands[i], state_at(cfg, cands, recs, st0, i)),
    ensures
        recs[i].dst == cand_path(cands[i]) || !state_at(
            cfg,
            cands,
            recs,
            st0,
            i,
        ).fs.contains(recs[i].dst),
{
    let sti = state_at(cfg, cands, recs, st0, i);
    assert(step_ok(cfg, cands[i], sti, recs[i]));
}

/// **Bijection with the journal**: a successful batch writes one record
/// per candidate; its journal text reads back as exactly those records,
/// and replaying them in reverse restores the initial model with no entry
/// left at an intermediate state.  Paths in the batch must be free of
/// spaces and newlines — the journal format's documented limit.
pub proof fn lemma_journal_reversal(
    cfg: CfgV,
    cands: Seq<CandidateV>,
    recs: Seq<RecordV>,
    fs0: Set<Seq<u8>>,
    journal: Seq<u8>,
)
    requires
        trace_ok(cfg, cands, init_state(fs0), recs),
        journal == spec_format(recs),
        forall|k: int| 0 <= k < recs.len() ==> rec_journalable(#[trigger] recs[k]),
        forall|k: int| 0 <= k < cands.len() ==> fs0.contains(cand_path(#[trigger] cands[k])),
        forall|k: int, l: int|
            0 <= k < l < cands.len() ==> cand_path(#[trigger] cands[k]) != cand_path(
                #[trigger] cands[l],
            ),
        forall|k: int|
            0 <= k < cands.len() && step_unchecked(
                cfg,
                cands[k],
                state_at(cfg, cands, recs, init_state(fs0), k),
            ) ==> ((#[trigger] recs[k]).dst == recs[k].src || !state_at(
                cfg,
                cands,
                recs,
                init_state(fs0),
                k,
            ).fs.contains(recs[k].dst)),
    ensures
        recs.len() == cands.len(),
        spec_parse(journal, 0) == Ok::<Seq<RecordV>, int>(recs),
        apply_recs(apply_recs(fs0, recs), undo_steps(recs)) == fs0,
{
    lemma_parse_format(recs, 0);
    lemma_trace_reversible(cfg, cands, recs, fs0);
}

/// The journal bijection at the level of a produced plan: what `rename`
/// hands back reads back as its own records, and replaying them in
/// reverse restores the model the plan was made against.
pub proof fn lemma_plan_reversible(
    cfg: CfgV,
    src: SourceInfoV,
    entries: Seq<EntryV>,
    fs0: Set<Seq<u8>>,
    cands: Seq<CandidateV>,
    recs: Seq<RecordV>,
    journal: Seq<u8>,
)
    requires
        rename_plan_ok(cfg, src, entries, fs0, cands, recs, journal),
        forall|k: int| 0 <= k < recs.len() ==> rec_journalable(#[trigger] recs[k]),
        forall|k: int| 0 <= k < cands.len() ==> fs0.contains(cand_path(#[trigger] cands[k])),
        forall|k: int, l: int|
            0 <= k < l < cands.len() ==> cand_path(#[trigger] cands[k]) != cand_path(
                #[trigger] cands[l],
            ),
        ({
            let cfg2 = with_target(cfg, resolved_kind(cfg, src));
            forall|k: int|
                0 <= k < cands.len() && step_unchecked(
                    cfg2,
                    cands[k],
                    state_at(cfg2, cands, recs, init_state(fs0), k),
                ) ==> ((#[trigger] recs[k]).dst == recs[k].src || !state_at(
                    cfg2,
                    cands,
                    recs,
                    init_state(fs0),
                    k,
                ).fs.contains(recs[k].dst))
        }),
    ensures
        recs.len() == cands.len(),
        spec_parse(journal, 0) == Ok::<Seq<RecordV>, int>(recs),
        apply_recs(apply_recs(fs0, recs), undo_steps(recs)) == fs0,
{
    let cfg2 = with_target(cfg, resolved_kind(cfg, src));
    lemma_journal_reversal(cfg2, cands, recs, fs0, journal);
}

} // verus!
