//! A batch file and directory renaming engine with a journaled undo
//! protocol.
//!
//! The library plans and models batch renames: it orders discovered
//! targets, generates unique new names per a configured method, keeps
//! stems consistent across files that share one, and records every rename
//! in a journal whose replay restores the original names.  All filesystem
//! reads and writes are left to the caller; the engine works on plain byte
//! paths and an explicit model of which paths exist.

mod batch;
mod bytes;
mod cli;
mod discover;
mod error;
mod fsmodel;
mod journal;
mod laws;
mod maps;
mod method;
mod namegen;
mod path;
mod plan;
mod target;
mod task;

pub use batch::{RunInput, RunOutcome, RenamePlan, UndoPlan, SourceInfo, SourceInfoV};
pub use batch::{trace_ok, state_at, init_state, undo_steps, spec_rename_err, rename_plan_ok};
pub use batch::{resolved_kind, spec_ntotal, spec_max_depth, lemma_state_at_prefix};
pub use bytes::{lex_lt, bytes_lt, bytes_eq, dec_bytes, b62_bytes, zpad, sort_key};
pub use bytes::{spec_dec, spec_b62, spec_zpad, spec_sort_key, spec_parse_usize};
pub use cli::{Cli, CfgV, BIT_MAX, with_target, spec_validate, spec_check_source};
pub use cli::{string_has_invalid, str_to_bytes, str_bytes, is_invalid_byte, has_invalid_byte};
pub use discover::{RawEntry, EntryV, Candidate, CandidateV, cands_view, spec_filter};
pub use discover::{entry_accepted, cands_sorted, cand_le, filter_entries, sort_candidates};
pub use error::Error;
pub use fsmodel::FsModel;
pub use journal::{spec_format, spec_parse, spec_line, parse_rec_line, rec_journalable};
pub use journal::{format_records, parse_journal, lemma_parse_format};
pub use laws::{apply_recs, batch_steps_wf, step_unchecked, count_dir, num_stem};
pub use laws::{lemma_undo_restores, lemma_trace_reversible, lemma_journal_reversal};
pub use laws::{lemma_plan_reversible};
pub use laws::{lemma_stem_consistency, lemma_per_directory_numbering};
pub use laws::{lemma_collision_avoidance, lemma_state_fs_is_apply, lemma_dst_stem_composed};
pub use maps::{CounterMap, StemMap};
pub use method::Method;
pub use namegen::{is_random_stem, is_uuid_stem, is_time_stem, spec_time_stem};
pub use namegen::{spec_ascii_upper, spec_ascii_lower, ascii_upper, ascii_lower};
pub use namegen::{RETRY_MAX};
pub use path::{spec_child, spec_new_name, stem_of, ext_of, wf_name, spec_is_hidden};
pub use path::{spec_stem_key, is_hidden, stem_bytes, ext_bytes, new_name, child_path, stem_key};
pub use plan::{Record, RecordV, recs_view, StateV, step_ok, step_state, step_hit, cand_path};
pub use plan::{cand_key, composed, dst_stem, consistency_active, gen_params_present};
pub use plan::{gen_start_ok, counter_fits, next_counter, det_stem, fresh_stem_ok, gen_cand};
pub use plan::{path_under, path_under_exec};
pub use target::Target;
pub use task::Task;
