//! Fresh-stem generation: the outside sources of randomness and time the
//! engine draws on, and the verified formatting around them.

use vstd::prelude::*;
use rand::Rng;
use chrono::{Datelike, Timelike};
use crate::bytes::{spec_dec, spec_zpad, dec_bytes, zpad, append_bytes};

verus! {

/// How often a colliding fresh name is resampled before the candidate is
/// left under its original name.
pub const RETRY_MAX: usize = 64;

/// An ASCII letter or digit.
pub open spec fn is_alnum(b: u8) -> bool {
    (48 <= b <= 57) || (65 <= b <= 90) || (97 <= b <= 122)
}

/// A lowercase hexadecimal digit.
pub open spec fn is_hex_lower(b: u8) -> bool {
    (48 <= b <= 57) || (97 <= b <= 102)
}

/// A byte string with its ASCII letters folded to upper case; every other
/// byte passes through unchanged.
pub open spec fn spec_ascii_upper(s: Seq<u8>) -> Seq<u8> {
    s.map_values(|b: u8| if 97 <= b <= 122 { (b - 32) as u8 } else { b })
}

/// A byte string with its ASCII letters folded to lower case; every other
/// byte passes through unchanged.
pub open spec fn spec_ascii_lower(s: Seq<u8>) -> Seq<u8> {
    s.map_values(|b: u8| if 65 <= b <= 90 { (b + 32) as u8 } else { b })
}

/// Folds the ASCII letters of `v` to upper case.
pub fn ascii_upper(v: &Vec<u8>) -> (r: Vec<u8>)
    ensures
        r@ == spec_ascii_upper(v@),
{
    let mut r: Vec<u8> = Vec::new();
    let mut i: usize = 0;
    while i < v.len()
        invariant
            0 <= i <= v@.len(),
            r@ =~= spec_ascii_upper(v@.take(i as int)),
        decreases v@.len() - i,
    {
        let b = v[i];
        r.push(if 97 <= b && b <= 122 { b - 32 } else { b });
        proof {
            assert(r@ =~= spec_ascii_upper(v@.take(i + 1)));
        }
        i += 1;
    }
    proof {
        assert(v@.take(v@.len() as int) =~= v@);
    }
    r
}

/// Folds the ASCII letters of `v` to lower case.
pub fn ascii_lower(v: &Vec<u8>) -> (r: Vec<u8>)
    ensures
        r@ == spec_ascii_lower(v@),
{
    let mut r: Vec<u8> = Vec::new();
    let mut i: usize = 0;
    while i < v.len()
        invariant
            0 <= i <= v@.len(),
            r@ =~= spec_ascii_lower(v@.take(i as int)),
        decreases v@.len() - i,
    {
        let b = v[i];
        r.push(if 65 <= b && b <= 90 { b + 32 } else { b });
        proof {
            assert(r@ =~= spec_ascii_lower(v@.take(i + 1)));
        }
        i += 1;
    }
    proof {
        assert(v@.take(v@.len() as int) =~= v@);
    }
    r
}

/// A random stem of width `n`: ASCII letters and digits only.
pub open spec fn is_random_stem(s: Seq<u8>, n: nat) -> bool {
    s.len() == n && forall|i: int| 0 <= i < s.len() ==> is_alnum(#[trigger] s[i])
}

/// A hyphenated UUID stem: 36 ASCII bytes, lowercase hexadecimal digits
/// with hyphens after the four group breaks.
pub open spec fn is_uuid_stem(s: Seq<u8>) -> bool {
    s.len() == 36 && forall|i: int|
        0 <= i < s.len() ==> (
        if i == 8 || i == 13 || i == 18 || i == 23 {
            #[trigger] s[i] == 45
        } else {
            is_hex_lower(s[i])
        })
}

/// Relies on rand's `Alphanumeric` distribution, sampled through
/// `thread_rng`: each drawn byte is an ASCII letter or digit, and exactly
/// `n` bytes are drawn.  Which bytes come back is chance; nothing more is
/// assumed of them.
#[verifier::external_body]
pub(crate) fn random_stem(n: usize) -> (r: Vec<u8>)
    ensures
        is_random_stem(r@, n as nat),
{
    rand::thread_rng().sample_iter(&rand::distributions::Alphanumeric).take(n).collect()
}

/// Relies on uuid's version-4 generation and its hyphenated display form:
/// 36 ASCII bytes, lowercase hexadecimal digits with hyphens after the
/// 8th, 13th, 18th and 23rd positions.  Which digits come back is chance.
#[verifier::external_body]
pub(crate) fn uuid_stem() -> (r: Vec<u8>)
    ensures
        is_uuid_stem(r@),
{
    uuid::Uuid::new_v4().to_string().into_bytes()
}

/// Relies on chrono's `Local::now` and its date and time getters; the
/// bounds are the ranges chrono documents for them.  What time comes back
/// depends on the clock.
#[verifier::external_body]
fn now_fields() -> (r: (i32, u32, u32, u32, u32, u32, u32))
    ensures
        1 <= r.1 <= 12,
        1 <= r.2 <= 31,
        r.3 <= 23,
        r.4 <= 59,
        r.5 <= 59,
        r.6 < 2_000_000_000,
{
    let t = chrono::Local::now();
    (t.year(), t.month(), t.day(), t.hour(), t.minute(), t.second(), t.nanosecond())
}

/// A number zero-padded to a width.
pub open spec fn spec_pad_num(v: nat, w: nat) -> Seq<u8> {
    spec_zpad(spec_dec(v), w)
}

/// The year part of a time stem: four digits, a sign ahead of them for a
/// year before year zero.
pub open spec fn spec_year(y: int) -> Seq<u8> {
    if y >= 0 {
        spec_pad_num(y as nat, 4)
    } else {
        seq![45u8] + spec_pad_num((-y) as nat, 4)
    }
}

/// A time stem: year, month, day, hour, minute and second, each
/// zero-padded, then the nanoseconds padded to nine digits, all joined by
/// the delimiter.
pub open spec fn spec_time_stem(
    y: int,
    mo: nat,
    d: nat,
    h: nat,
    mi: nat,
    s: nat,
    ns: nat,
    delim: Seq<u8>,
) -> Seq<u8> {
    spec_year(y) + delim + spec_pad_num(mo, 2) + delim + spec_pad_num(d, 2) + delim
        + spec_pad_num(h, 2) + delim + spec_pad_num(mi, 2) + delim + spec_pad_num(s, 2)
        + delim + spec_pad_num(ns, 9)
}

/// A byte string is some current-time stem for the delimiter: the shape
/// every stem the `Time` method generates has.
pub open spec fn is_time_stem(r: Seq<u8>, delim: Seq<u8>) -> bool {
    exists|y: int, mo: nat, d: nat, h: nat, mi: nat, s: nat, ns: nat|
        {
            &&& 1 <= mo <= 12
            &&& 1 <= d <= 31
            &&& h <= 23
            &&& mi <= 59
            &&& s <= 59
            &&& ns < 2_000_000_000
            &&& r == spec_time_stem(y, mo, d, h, mi, s, ns, delim)
        }
}

/// Formats a number zero-padded to a width.
fn pad_num(v: u32, w: usize) -> (r: Vec<u8>)
    ensures
        r@ == spec_pad_num(v as nat, w as nat),
{
    let d = dec_bytes(v as usize);
    zpad(&d, w)
}

/// The stem the `Time` method gives the current moment: the local time read
/// from the clock, formatted field by field with the delimiter between.
pub(crate) fn time_stem(delim: &Vec<u8>) -> (r: Vec<u8>)
    ensures
        is_time_stem(r@, delim@),
{
    let (y, mo, d, h, mi, s, ns) = now_fields();
    let mut r: Vec<u8> = Vec::new();
    if y >= 0 {
        let yb = pad_num(y as u32, 4);
        append_bytes(&mut r, &yb);
    } else {
        r.push(45);
        let ym: u32 = (-(y as i64)) as u32;
        proof {
            assert(ym as int == -(y as int));
        }
        let yb = pad_num(ym, 4);
        append_bytes(&mut r, &yb);
        proof {
            assert(r@ =~= seq![45u8] + spec_pad_num((-(y as int)) as nat, 4));
        }
    }
    proof {
        assert(r@ == spec_year(y as int));
    }
    let ghost base = r@;
    append_bytes(&mut r, delim);
    let p = pad_num(mo, 2);
    append_bytes(&mut r, &p);
    append_bytes(&mut r, delim);
    let p = pad_num(d, 2);
    append_bytes(&mut r, &p);
    append_bytes(&mut r, delim);
    let p = pad_num(h, 2);
    append_bytes(&mut r, &p);
    append_bytes(&mut r, delim);
    let p = pad_num(mi, 2);
    append_bytes(&mut r, &p);
    append_bytes(&mut r, delim);
    let p = pad_num(s, 2);
    append_bytes(&mut r, &p);
    append_bytes(&mut r, delim);
    let pns = dec_bytes(ns as usize);
    let pns = zpad(&pns, 9);
    append_bytes(&mut r, &pns);
    proof {
        assert(r@ == spec_time_stem(y as int, mo as nat, d as nat, h as nat, mi as nat,
            s as nat, ns as nat, delim@));
        assert(is_time_stem(r@, delim@));
    }
    r
}

} // verus!
