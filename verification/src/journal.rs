//! The journal: one line per rename, the source path, one space, the
//! destination path and a newline.  A journal is written after a batch and
//! read back in full for undo; a line without exactly one space is corrupt.
//! Paths holding a space or a newline cannot round-trip this format; that
//! is a documented limit of the format, not silently repaired.

use vstd::prelude::*;
use crate::error::Error;
use crate::plan::{Record, RecordV, recs_view};

verus! {

/// The journal line of one record.
pub open spec fn spec_line(r: RecordV) -> Seq<u8> {
    r.src + seq![32u8] + r.dst + seq![10u8]
}

/// The journal text of a batch: the lines of its records in order.
pub open spec fn spec_format(recs: Seq<RecordV>) -> Seq<u8>
    decreases recs.len(),
{
    if recs.len() == 0 {
        Seq::empty()
    } else {
        spec_line(recs[0]) + spec_format(recs.drop_first())
    }
}

pub proof fn lemma_format_push(recs: Seq<RecordV>, r: RecordV)
    ensures
        spec_format(recs.push(r)) == spec_format(recs) + spec_line(r),
    decreases recs.len(),
{
    if recs.len() == 0 {
        assert(recs.push(r)[0] == r);
        assert(recs.push(r).drop_first() =~= Seq::<RecordV>::empty());
        assert(spec_format(Seq::<RecordV>::empty()) == Seq::<u8>::empty());
        assert(spec_format(recs.push(r)) =~= spec_line(r));
        assert(spec_format(recs) + spec_line(r) =~= spec_line(r));
    } else {
        assert(recs.push(r).drop_first() =~= recs.drop_first().push(r));
        assert(recs.push(r)[0] == recs[0]);
        lemma_format_push(recs.drop_first(), r);
        assert(spec_line(recs[0]) + (spec_format(recs.drop_first()) + spec_line(r))
            =~= (spec_line(recs[0]) + spec_format(recs.drop_first())) + spec_line(r));
    }
}

/// Writes the journal text of a batch.
#[verifier::loop_isolation(false)]
pub fn format_records(recs: &Vec<Record>) -> (r: Vec<u8>)
    ensures
        r@ == spec_format(recs_view(recs@)),
{
    let mut out: Vec<u8> = Vec::new();
    proof {
        assert(recs_view(recs@).take(0) =~= Seq::<RecordV>::empty());
        assert(out@ =~= spec_format(recs_view(recs@).take(0)));
    }
    let mut i: usize = 0;
    while i < recs.len()
        invariant
            0 <= i <= recs@.len(),
            out@ == spec_format(recs_view(recs@).take(i as int)),
        decreases recs@.len() - i,
    {
        let ghost pre = recs_view(recs@).take(i as int);
        crate::bytes::append_bytes(&mut out, &recs[i].src);
        out.push(32);
        crate::bytes::append_bytes(&mut out, &recs[i].dst);
        out.push(10);
        proof {
            assert(out@ =~= spec_format(pre) + spec_line(recs@[i as int]@));
            lemma_format_push(pre, recs@[i as int]@);
            assert(recs_view(recs@).take(i + 1) =~= pre.push(recs@[i as int]@));
        }
        i += 1;
    }
    proof {
        assert(recs_view(recs@).take(recs@.len() as int) =~= recs_view(recs@));
    }
    out
}

/// The index of the first occurrence of a byte, or `-1`.
pub open spec fn find_byte(s: Seq<u8>, b: u8) -> int
    decreases s.len(),
{
    if s.len() == 0 {
        -1
    } else if s[0] == b {
        0
    } else {
        let r = find_byte(s.drop_first(), b);
        if r < 0 {
            -1
        } else {
            r + 1
        }
    }
}

pub proof fn lemma_find_byte(s: Seq<u8>, b: u8)
    ensures
        find_byte(s, b) == -1 ==> forall|j: int| 0 <= j < s.len() ==> s[j] != b,
        find_byte(s, b) >= 0 ==> {
            &&& find_byte(s, b) < s.len()
            &&& s[find_byte(s, b)] == b
            &&& forall|j: int| 0 <= j < find_byte(s, b) ==> s[j] != b
        },
    decreases s.len(),
{
    if s.len() > 0 && s[0] != b {
        lemma_find_byte(s.drop_first(), b);
        assert(forall|j: int| 1 <= j < s.len() ==> s[j] == s.drop_first()[j - 1]);
    }
}

/// The converse: a position with the first occurrence pins `find_byte`.
pub proof fn lemma_find_byte_is(s: Seq<u8>, b: u8, k: int)
    requires
        0 <= k < s.len(),
        s[k] == b,
        forall|j: int| 0 <= j < k ==> s[j] != b,
    ensures
        find_byte(s, b) == k,
    decreases s.len(),
{
    if k > 0 {
        lemma_find_byte_is(s.drop_first(), b, k - 1);
    }
}

pub proof fn lemma_find_byte_none(s: Seq<u8>, b: u8)
    requires
        forall|j: int| 0 <= j < s.len() ==> s[j] != b,
    ensures
        find_byte(s, b) == -1,
    decreases s.len(),
{
    if s.len() > 0 {
        lemma_find_byte_none(s.drop_first(), b);
    }
}

/// One parsed journal line: the bytes before the single space, and the
/// bytes after it.  A line without a space, or with more than one, is
/// corrupt.
pub open spec fn parse_rec_line(line: Seq<u8>) -> Option<RecordV> {
    let i = find_byte(line, 32);
    if i < 0 {
        None
    } else if find_byte(line.skip(i + 1), 32) >= 0 {
        None
    } else {
        Some(RecordV { src: line.take(i), dst: line.skip(i + 1) })
    }
}

/// The records of a journal text, or the index of the first corrupt line.
/// A last line without a trailing newline still counts.
pub open spec fn spec_parse(text: Seq<u8>, lineno: int) -> Result<Seq<RecordV>, int>
    decreases text.len(),
    via spec_parse_decreases
{
    if text.len() == 0 {
        Ok(Seq::empty())
    } else {
        let nl = find_byte(text, 10);
        let line = if nl < 0 {
            text
        } else {
            text.take(nl)
        };
        let rest = if nl < 0 {
            Seq::<u8>::empty()
        } else {
            text.skip(nl + 1)
        };
        match parse_rec_line(line) {
            None => Err(lineno),
            Some(r) => match spec_parse(rest, lineno + 1) {
                Err(e) => Err(e),
                Ok(rs) => Ok(seq![r] + rs),
            },
        }
    }
}

#[via_fn]
proof fn spec_parse_decreases(text: Seq<u8>, lineno: int) {
    if text.len() > 0 {
        lemma_find_byte(text, 10);
    }
}

/// Scans for a byte in `v` from `from` on.
#[verifier::loop_isolation(false)]
fn scan_byte(v: &Vec<u8>, from: usize, to: usize, b: u8) -> (r: Option<usize>)
    requires
        from <= to <= v@.len(),
    ensures
        match r {
            Some(k) => from <= k < to && v@[k as int] == b && forall|j: int|
                from <= j < k ==> v@[j] != b,
            None => forall|j: int| from <= j < to ==> v@[j] != b,
        },
{
    let mut i: usize = from;
    while i < to
        invariant
            from <= i <= to,
            forall|j: int| from <= j < i ==> v@[j] != b,
        decreases to - i,
    {
        if v[i] == b {
            return Some(i);
        }
        i += 1;
    }
    None
}

/// Copies `v[a..b]`.
fn sub_bytes(v: &Vec<u8>, a: usize, b: usize) -> (r: Vec<u8>)
    requires
        a <= b <= v@.len(),
    ensures
        r@ == v@.subrange(a as int, b as int),
{
    let mut r: Vec<u8> = Vec::new();
    let mut i: usize = a;
    while i < b
        invariant
            a <= i <= b <= v@.len(),
            r@ =~= v@.subrange(a as int, i as int),
        decreases b - i,
    {
        r.push(v[i]);
        proof {
            assert(r@ =~= v@.subrange(a as int, i + 1));
        }
        i += 1;
    }
    r
}

/// Reads a journal text back into records, reporting the index of the
/// first corrupt line if one exists.
#[verifier::loop_isolation(false)]
#[verifier::rlimit(60)]
pub fn parse_journal(text: &Vec<u8>) -> (r: Result<Vec<Record>, Error>)
    ensures
        match r {
            Ok(recs) => spec_parse(text@, 0) == Ok::<Seq<RecordV>, int>(recs_view(recs@)),
            Err(e) => {
                &&& e matches Error::JournalCorrupt { line }
                &&& spec_parse(text@, 0) == Err::<Seq<RecordV>, int>(line as int)
            }
        },
{
    let n = text.len();
    let mut out: Vec<Record> = Vec::new();
    let mut pos: usize = 0;
    let mut lineno: usize = 0;
    proof {
        assert(text@.skip(0) =~= text@);
        assert(recs_view(out@) =~= Seq::<RecordV>::empty());
    }
    while pos < n
        invariant
            0 <= pos <= n,
            n == text@.len(),
            lineno <= pos,
            spec_parse(text@, 0) == match spec_parse(text@.skip(pos as int), lineno as int) {
                Ok(rs) => Ok::<Seq<RecordV>, int>(recs_view(out@) + rs),
                Err(e) => Err::<Seq<RecordV>, int>(e),
            },
        decreases n - pos,
    {
        let ghost s = text@.skip(pos as int);
        let (line_end, next_pos): (usize, usize) = match scan_byte(text, pos, n, 10) {
            Some(k) => (k, k + 1),
            None => (n, n),
        };
        proof {
            if line_end < n {
                lemma_find_byte_is(s, 10, line_end - pos);
            } else {
                lemma_find_byte_none(s, 10);
            }
            assert(text@.subrange(pos as int, line_end as int) =~= if find_byte(s, 10) < 0 {
                s
            } else {
                s.take(find_byte(s, 10))
            });
        }
        let ghost line = text@.subrange(pos as int, line_end as int);
        // the line must hold exactly one space
        let sp = match scan_byte(text, pos, line_end, 32) {
            None => {
                proof {
                    lemma_find_byte_none(line, 32);
                    assert(parse_rec_line(line) is None);
                }
                return Err(Error::JournalCorrupt { line: lineno });
            }
            Some(k) => k,
        };
        proof {
            lemma_find_byte_is(line, 32, sp - pos);
        }
        match scan_byte(text, sp + 1, line_end, 32) {
            Some(k2) => {
                proof {
                    let tail = line.skip(sp - pos + 1);
                    assert(tail[k2 - sp - 1] == text@[k2 as int]);
                    assert(find_byte(tail, 32) >= 0) by {
                        if forall|j: int| 0 <= j < tail.len() ==> tail[j] != 32 {
                            assert(tail[k2 - sp - 1] != 32);
                        } else {
                            let j = choose|j: int|
                                0 <= j < tail.len() && tail[j] == 32;
                            lemma_find_byte(tail, 32);
                        }
                    }
                    assert(parse_rec_line(line) is None);
                }
                return Err(Error::JournalCorrupt { line: lineno });
            }
            None => {}
        }
        let rec = Record {
            src: sub_bytes(text, pos, sp),
            dst: sub_bytes(text, sp + 1, line_end),
        };
        proof {
            let i = sp - pos;
            let tail = line.skip(i + 1);
            lemma_find_byte_none(tail, 32);
            assert(line.take(i) =~= text@.subrange(pos as int, sp as int));
            assert(line.skip(i + 1) =~= text@.subrange(sp + 1, line_end as int));
            assert(parse_rec_line(line) == Some(rec@));
            // one unfolding of the parse of the remaining text
            let rest = text@.skip(next_pos as int);
            if line_end < n {
                assert(s.skip(find_byte(s, 10) + 1) =~= rest);
            } else {
                assert(rest =~= Seq::<u8>::empty());
            }
            assert(spec_parse(s, lineno as int) == match spec_parse(rest, lineno as int + 1) {
                Err(e) => Err::<Seq<RecordV>, int>(e),
                Ok(rs) => Ok::<Seq<RecordV>, int>(seq![rec@] + rs),
            });
        }
        let ghost out_pre = out@;
        out.push(rec);
        proof {
            let rest = text@.skip(next_pos as int);
            assert(out@ == out_pre.push(rec));
            assert(recs_view(out@) =~= recs_view(out_pre).push(rec@));
            match spec_parse(rest, lineno as int + 1) {
                Err(e) => {
                    assert(spec_parse(s, lineno as int) == Err::<Seq<RecordV>, int>(e));
                    assert(spec_parse(text@, 0) == Err::<Seq<RecordV>, int>(e));
                }
                Ok(rs) => {
                    assert(spec_parse(s, lineno as int) == Ok::<Seq<RecordV>, int>(
                        seq![rec@] + rs,
                    ));
                    assert(spec_parse(text@, 0) == Ok::<Seq<RecordV>, int>(
                        recs_view(out_pre) + (seq![rec@] + rs),
                    ));
                    assert(recs_view(out_pre) + (seq![rec@] + rs) =~= recs_view(out@) + rs);
                    assert(spec_parse(text@, 0) == Ok::<Seq<RecordV>, int>(
                        recs_view(out@) + rs,
                    ));
                }
            }
        }
        pos = next_pos;
        proof {
            assert(lineno < usize::MAX);
        }
        lineno = lineno + 1;
    }
    proof {
        assert(text@.skip(pos as int).len() == 0);
        assert(spec_parse(text@.skip(pos as int), lineno as int)
            == Ok::<Seq<RecordV>, int>(Seq::empty()));
        assert(recs_view(out@) + Seq::<RecordV>::empty() =~= recs_view(out@));
    }
    Ok(out)
}

/// The format written by one batch reads back as the same records,
/// provided no path holds a space or a newline: the documented limit of
/// the one-line-per-record format.
pub open spec fn rec_journalable(r: RecordV) -> bool {
    &&& forall|i: int| 0 <= i < r.src.len() ==> r.src[i] != 32 && #[trigger] r.src[i] != 10
    &&& forall|i: int| 0 <= i < r.dst.len() ==> r.dst[i] != 32 && #[trigger] r.dst[i] != 10
}

pub proof fn lemma_parse_format(recs: Seq<RecordV>, lineno: int)
    requires
        forall|i: int| 0 <= i < recs.len() ==> rec_journalable(#[trigger] recs[i]),
    ensures
        spec_parse(spec_format(recs), lineno) == Ok::<Seq<RecordV>, int>(recs),
    decreases recs.len(),
{
    if recs.len() == 0 {
        assert(spec_format(recs).len() == 0);
        assert(recs =~= Seq::<RecordV>::empty());
    } else {
        let r = recs[0];
        let text = spec_format(recs);
        let rest_text = spec_format(recs.drop_first());
        assert(text == spec_line(r) + rest_text);
        let k = r.src.len() + 1 + r.dst.len();
        assert(text[k as int] == 10);
        assert forall|j: int| 0 <= j < k implies text[j] != 10 by {
            if j < r.src.len() {
                assert(text[j] == r.src[j]);
            } else if j == r.src.len() {
                assert(text[j] == 32);
            } else {
                assert(text[j] == r.dst[j - r.src.len() - 1]);
            }
        }
        lemma_find_byte_is(text, 10, k as int);
        let line = text.take(k as int);
        assert(line =~= r.src + seq![32u8] + r.dst);
        assert(line[r.src.len() as int] == 32);
        assert forall|j: int| 0 <= j < r.src.len() implies line[j] != 32 by {
            assert(line[j] == r.src[j]);
        }
        lemma_find_byte_is(line, 32, r.src.len() as int);
        let tail = line.skip(r.src.len() as int + 1);
        assert(tail =~= r.dst);
        lemma_find_byte_none(tail, 32);
        assert(line.take(r.src.len() as int) =~= r.src);
        assert(parse_rec_line(line) == Some(r));
        assert(text.skip(k as int + 1) =~= rest_text);
        lemma_parse_format(recs.drop_first(), lineno + 1);
        assert(seq![r] + recs.drop_first() =~= recs);
    }
}

} // verus!
