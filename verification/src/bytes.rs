//! Byte-string utilities the engine is built on: lexicographic order,
//! decimal and base-62 digit strings, numeric parsing and zero-padding.

use vstd::prelude::*;

verus! {

/// Strict lexicographic (bytewise) order on byte strings.
pub open spec fn lex_lt(a: Seq<u8>, b: Seq<u8>) -> bool
    decreases a.len(),
{
    if b.len() == 0 {
        false
    } else if a.len() == 0 {
        true
    } else if a[0] < b[0] {
        true
    } else if a[0] > b[0] {
        false
    } else {
        lex_lt(a.drop_first(), b.drop_first())
    }
}

pub proof fn lemma_lex_lt_irrefl(a: Seq<u8>)
    ensures
        !lex_lt(a, a),
    decreases a.len(),
{
    if a.len() > 0 {
        lemma_lex_lt_irrefl(a.drop_first());
    }
}

/// Two byte strings are always ordered one way or the other, or equal.
pub proof fn lemma_lex_lt_total(a: Seq<u8>, b: Seq<u8>)
    ensures
        lex_lt(a, b) || lex_lt(b, a) || a == b,
    decreases a.len(),
{
    if a.len() == 0 || b.len() == 0 {
        if a.len() == 0 && b.len() == 0 {
            assert(a =~= b);
        }
    } else if a[0] == b[0] {
        lemma_lex_lt_total(a.drop_first(), b.drop_first());
        if !lex_lt(a, b) && !lex_lt(b, a) {
            assert(a.drop_first() == b.drop_first());
            assert(forall|i: int|
                1 <= i < a.len() ==> #[trigger] a[i] == a.drop_first()[i - 1]);
            assert(forall|i: int|
                1 <= i < b.len() ==> #[trigger] b[i] == b.drop_first()[i - 1]);
            assert(a =~= b);
        }
    }
}

pub proof fn lemma_lex_lt_asym(a: Seq<u8>, b: Seq<u8>)
    requires
        lex_lt(a, b),
    ensures
        !lex_lt(b, a),
    decreases a.len(),
{
    if a.len() > 0 && b.len() > 0 && a[0] == b[0] {
        lemma_lex_lt_asym(a.drop_first(), b.drop_first());
    }
}

pub proof fn lemma_lex_lt_trans(a: Seq<u8>, b: Seq<u8>, c: Seq<u8>)
    requires
        lex_lt(a, b),
        lex_lt(b, c),
    ensures
        lex_lt(a, c),
    decreases a.len(),
{
    if a.len() > 0 && b.len() > 0 && c.len() > 0 && a[0] == b[0] && b[0] == c[0] {
        lemma_lex_lt_trans(a.drop_first(), b.drop_first(), c.drop_first());
    }
}

/// Equal heads shift `lex_lt` to the tails.
proof fn lemma_lex_lt_step(a: Seq<u8>, b: Seq<u8>, i: int)
    requires
        0 <= i,
        i < a.len(),
        i < b.len(),
        forall|j: int| 0 <= j <= i ==> a[j] == b[j],
    ensures
        lex_lt(a.skip(i), b.skip(i)) == lex_lt(a.skip(i + 1), b.skip(i + 1)),
{
    assert(a.skip(i).len() > 0 && b.skip(i).len() > 0);
    assert(a.skip(i)[0] == a[i]);
    assert(b.skip(i)[0] == b[i]);
    assert(a.skip(i).drop_first() =~= a.skip(i + 1));
    assert(b.skip(i).drop_first() =~= b.skip(i + 1));
}

/// Decides the lexicographic order of two byte strings.
pub fn bytes_lt(a: &Vec<u8>, b: &Vec<u8>) -> (r: bool)
    ensures
        r == lex_lt(a@, b@),
{
    proof {
        assert(a@.skip(0) =~= a@);
        assert(b@.skip(0) =~= b@);
    }
    let mut i: usize = 0;
    while i < a.len() && i < b.len()
        invariant
            0 <= i <= a.len(),
            0 <= i <= b.len(),
            forall|j: int| 0 <= j < i ==> a@[j] == b@[j],
            lex_lt(a@, b@) == lex_lt(a@.skip(i as int), b@.skip(i as int)),
        decreases a@.len() - i,
    {
        if a[i] < b[i] {
            return true;
        }
        if a[i] > b[i] {
            return false;
        }
        proof {
            lemma_lex_lt_step(a@, b@, i as int);
        }
        i += 1;
    }
    proof {
        if i == a.len() && i == b.len() {
            assert(a@.skip(i as int).len() == 0 && b@.skip(i as int).len() == 0);
        } else if i == a.len() {
            assert(a@.skip(i as int).len() == 0 && b@.skip(i as int).len() > 0);
        } else {
            assert(b@.skip(i as int).len() == 0 && a@.skip(i as int).len() > 0);
        }
    }
    a.len() < b.len()
}

/// Whether two byte strings hold the same bytes.
pub fn bytes_eq(a: &Vec<u8>, b: &Vec<u8>) -> (r: bool)
    ensures
        r == (a@ == b@),
{
    proof {
        lemma_lex_lt_total(a@, b@);
        lemma_lex_lt_irrefl(a@);
    }
    if a.len() != b.len() {
        return false;
    }
    let mut i: usize = 0;
    while i < a.len()
        invariant
            a.len() == b.len(),
            0 <= i <= a.len(),
            forall|j: int| 0 <= j < i ==> a@[j] == b@[j],
        decreases a@.len() - i,
    {
        if a[i] != b[i] {
            return false;
        }
        i += 1;
    }
    proof {
        assert(a@ =~= b@);
    }
    true
}

/// Appends the bytes of `s` to `r`.
#[verifier::loop_isolation(false)]
pub fn append_bytes(r: &mut Vec<u8>, s: &Vec<u8>)
    ensures
        final(r)@ == old(r)@ + s@,
{
    let ghost r0 = r@;
    let mut i: usize = 0;
    while i < s.len()
        invariant
            0 <= i <= s@.len(),
            r@ =~= r0 + s@.take(i as int),
        decreases s@.len() - i,
    {
        r.push(s[i]);
        proof {
            assert(r@ =~= r0 + s@.take(i + 1));
        }
        i += 1;
    }
    proof {
        assert(s@.take(s@.len() as int) =~= s@);
    }
}

/// The bytes of `a` followed by the bytes of `b`.
pub fn concat_bytes(a: &Vec<u8>, b: &Vec<u8>) -> (r: Vec<u8>)
    ensures
        r@ == a@ + b@,
{
    let mut r = a.clone();
    proof {
        assert(r@ =~= a@);
    }
    append_bytes(&mut r, b);
    r
}

/// An ASCII decimal digit.
pub open spec fn is_digit(b: u8) -> bool {
    48 <= b <= 57
}

pub open spec fn all_digits(s: Seq<u8>) -> bool {
    forall|i: int| 0 <= i < s.len() ==> is_digit(#[trigger] s[i])
}

/// The number a digit string denotes.
pub open spec fn dec_val(s: Seq<u8>) -> nat
    decreases s.len(),
{
    if s.len() == 0 {
        0
    } else {
        dec_val(s.drop_last()) * 10 + (s.last() - 48) as nat
    }
}

/// The decimal digit string of a number, without padding.
pub open spec fn spec_dec(n: nat) -> Seq<u8>
    decreases n,
{
    if n < 10 {
        seq![(48 + n) as u8]
    } else {
        spec_dec(n / 10).push((48 + n % 10) as u8)
    }
}

pub proof fn lemma_spec_dec(n: nat)
    ensures
        spec_dec(n).len() >= 1,
        all_digits(spec_dec(n)),
        dec_val(spec_dec(n)) == n,
    decreases n,
{
    if n < 10 {
        let s = seq![(48 + n) as u8];
        assert(s.drop_last() =~= Seq::<u8>::empty());
        assert(s.last() == (48 + n) as u8);
        assert(dec_val(s) == dec_val(s.drop_last()) * 10 + (s.last() - 48) as nat);
        assert(dec_val(s.drop_last()) == 0);
        assert(dec_val(s) == n);
    } else {
        lemma_spec_dec(n / 10);
        let s = spec_dec(n / 10).push((48 + n % 10) as u8);
        assert(s.drop_last() =~= spec_dec(n / 10));
        assert(dec_val(s) == (n / 10) * 10 + n % 10);
        assert((n / 10) * 10 + n % 10 == n) by (nonlinear_arith);
        assert(forall|i: int|
            0 <= i < s.len() ==> is_digit(#[trigger] s[i]));
    }
}

/// The decimal digit string of `n`.
pub fn dec_bytes(n: usize) -> (r: Vec<u8>)
    ensures
        r@ == spec_dec(n as nat),
    decreases n,
{
    if n < 10 {
        let mut v: Vec<u8> = Vec::new();
        v.push(48 + n as u8);
        proof {
            assert(v@ =~= spec_dec(n as nat));
        }
        v
    } else {
        let mut v = dec_bytes(n / 10);
        v.push(48 + (n % 10) as u8);
        proof {
            assert(v@ =~= spec_dec(n as nat));
        }
        v
    }
}

/// One character of the base-62 alphabet `0-9A-Za-z`.
pub open spec fn b62_digit(d: nat) -> u8 {
    if d < 10 {
        (48 + d) as u8
    } else if d < 36 {
        (65 + (d - 10)) as u8
    } else {
        (97 + (d - 36)) as u8
    }
}

/// The base-62 digit string of a number, alphabet `0-9A-Za-z`.
pub open spec fn spec_b62(n: nat) -> Seq<u8>
    decreases n,
{
    if n < 62 {
        seq![b62_digit(n)]
    } else {
        spec_b62(n / 62).push(b62_digit(n % 62))
    }
}

/// The base-62 digit string of `n`.
pub fn b62_bytes(n: usize) -> (r: Vec<u8>)
    ensures
        r@ == spec_b62(n as nat),
    decreases n,
{
    let d = n % 62;
    let c: u8 = if d < 10 {
        48 + d as u8
    } else if d < 36 {
        65 + (d as u8 - 10)
    } else {
        97 + (d as u8 - 36)
    };
    assert(c == b62_digit((n % 62) as nat));
    if n < 62 {
        let mut v: Vec<u8> = Vec::new();
        v.push(c);
        proof {
            assert(v@ =~= spec_b62(n as nat));
        }
        v
    } else {
        let mut v = b62_bytes(n / 62);
        v.push(c);
        proof {
            assert(v@ =~= spec_b62(n as nat));
        }
        v
    }
}

proof fn lemma_dec_val_mono(t: Seq<u8>, k: int)
    requires
        0 <= k <= t.len(),
        all_digits(t),
    ensures
        dec_val(t.take(k)) <= dec_val(t),
    decreases t.len() - k,
{
    if k < t.len() {
        lemma_dec_val_mono(t, k + 1);
        assert(t.take(k + 1).drop_last() =~= t.take(k));
        assert(t.take(k + 1).last() == t[k]);
        assert(dec_val(t.take(k)) * 10 >= dec_val(t.take(k))) by (nonlinear_arith);
    } else {
        assert(t.take(k) =~= t);
    }
}

/// The value a stem parses to as a `usize`: an optional leading plus sign,
/// then at least one digit, denoting a value that fits; `None` otherwise.
pub open spec fn spec_parse_usize(s: Seq<u8>) -> Option<int> {
    let body = if s.len() > 0 && s[0] == 43 {
        s.drop_first()
    } else {
        s
    };
    if body.len() > 0 && all_digits(body) && dec_val(body) <= usize::MAX {
        Some(dec_val(body) as int)
    } else {
        None
    }
}

/// The numeric ordering key of a stem: its parsed value, with stems that do
/// not parse keyed as `usize::MAX` so they order after all that do.
pub open spec fn spec_sort_key(s: Seq<u8>) -> int {
    match spec_parse_usize(s) {
        Some(v) => v,
        None => usize::MAX as int,
    }
}

/// Computes the numeric ordering key of a stem.
pub fn sort_key(s: &Vec<u8>) -> (r: usize)
    ensures
        r as int == spec_sort_key(s@),
{
    let start: usize = if s.len() > 0 && s[0] == 43 {
        1
    } else {
        0
    };
    let ghost body = s@.skip(start as int);
    proof {
        if start == 1 {
            assert(body =~= s@.drop_first());
        } else {
            assert(body =~= s@);
        }
    }
    if start >= s.len() {
        return usize::MAX;
    }
    let mut i: usize = start;
    let mut acc: usize = 0;
    while i < s.len()
        invariant
            start <= i <= s.len(),
            start < s.len(),
            start as int == if s@.len() > 0 && s@[0] == 43 { 1int } else { 0int },
            body == if s@.len() > 0 && s@[0] == 43 { s@.drop_first() } else { s@ },
            body == s@.skip(start as int),
            forall|j: int| start <= j < i ==> is_digit(#[trigger] s@[j]),
            acc as nat == dec_val(s@.subrange(start as int, i as int)),
        decreases s@.len() - i,
    {
        let b = s[i];
        if b < 48 || b > 57 {
            proof {
                assert(body[i - start] == s@[i as int]);
                assert(!all_digits(body)) by {
                    if all_digits(body) {
                        assert(is_digit(body[i - start]));
                    }
                }
            }
            return usize::MAX;
        }
        proof {
            assert(s@.subrange(start as int, i + 1).drop_last()
                =~= s@.subrange(start as int, i as int));
            assert(s@.subrange(start as int, i + 1).last() == s@[i as int]);
        }
        let mul = acc.checked_mul(10);
        let step = match mul {
            Some(x) => x.checked_add((b - 48) as usize),
            None => None,
        };
        match step {
            Some(x) => {
                acc = x;
            }
            None => {
                proof {
                    let k = i + 1 - start;
                    assert(forall|j: int| 0 <= j < body.len()
                        ==> body[j] == s@[start + j]);
                    assert(body.take(k) =~= s@.subrange(start as int, i + 1));
                    assert(dec_val(s@.subrange(start as int, i + 1))
                        == (acc as nat) * 10 + (s@[i as int] - 48) as nat);
                    assert((acc as nat) * 10 + (s@[i as int] - 48) as nat
                        > usize::MAX);
                    if all_digits(body) && dec_val(body) <= usize::MAX {
                        lemma_dec_val_mono(body, k);
                        assert(false);
                    }
                }
                return usize::MAX;
            }
        }
        i += 1;
    }
    proof {
        assert(s@.subrange(start as int, s@.len() as int) =~= body);
        assert(forall|j: int| 0 <= j < body.len() ==> body[j] == s@[start + j]);
        assert(all_digits(body));
    }
    acc
}

/// `s` left-padded with ASCII zeros up to width `w`; never truncated.
pub open spec fn spec_zpad(s: Seq<u8>, w: nat) -> Seq<u8> {
    if s.len() >= w {
        s
    } else {
        Seq::new((w - s.len()) as nat, |i: int| 48u8) + s
    }
}

pub proof fn lemma_spec_zpad(s: Seq<u8>, w: nat)
    ensures
        spec_zpad(s, w).len() == if s.len() >= w { s.len() } else { w },
        spec_zpad(s, w) =~= spec_zpad(s, w).take(spec_zpad(s, w).len() - s.len())
            + s,
        forall|i: int| 0 <= i < spec_zpad(s, w).len() - s.len()
            ==> spec_zpad(s, w)[i] == 48u8,
{
}

/// Left-pads `v` with ASCII zeros up to width `w`.
pub fn zpad(v: &Vec<u8>, w: usize) -> (r: Vec<u8>)
    ensures
        r@ == spec_zpad(v@, w as nat),
{
    if v.len() >= w {
        let r = v.clone();
        proof {
            assert(r@ =~= v@);
        }
        return r;
    }
    let mut r: Vec<u8> = Vec::new();
    let pad = w - v.len();
    let mut i: usize = 0;
    while i < pad
        invariant
            0 <= i <= pad,
            r@ =~= Seq::new(i as nat, |j: int| 48u8),
        decreases pad - i,
    {
        r.push(48);
        proof {
            assert(r@ =~= Seq::new((i + 1) as nat, |j: int| 48u8));
        }
        i += 1;
    }
    let mut j: usize = 0;
    while j < v.len()
        invariant
            0 <= j <= v.len(),
            pad == w - v@.len(),
            v@.len() < w,
            r@ =~= Seq::new(pad as nat, |k: int| 48u8) + v@.take(j as int),
        decreases v@.len() - j,
    {
        r.push(v[j]);
        proof {
            assert(r@ =~= Seq::new(pad as nat, |k: int| 48u8) + v@.take(j + 1));
        }
        j += 1;
    }
    proof {
        assert(v@.take(v@.len() as int) =~= v@);
    }
    r
}

} // verus!
