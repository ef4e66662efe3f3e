use vstd::prelude::*;
use crate::error::Error;
use vstd::string::StringSliceAdditionalSpecFns;

verus! {

// Bencode markers, as ASCII bytes: `i`, `l`, `d`, `e`, `:`, `-` and the digit `0`.
pub const INT_MARK: u8 = 105;
pub const LIST_MARK: u8 = 108;
pub const DICT_MARK: u8 = 100;
pub const END_MARK: u8 = 101;
pub const COLON: u8 = 58;
pub const MINUS: u8 = 45;
pub const ZERO: u8 = 48;

/// The mathematical model of a bencoded value.
pub enum Term {
    Int(int),
    Bytes(Seq<u8>),
    List(Seq<Term>),
    Dict(Seq<(Seq<u8>, Term)>),
}

/// A decoded bencode value. Dictionary entries are kept in a vector ordered by key.
#[derive(PartialEq, Debug)]
pub enum Value {
    Int(i64),
    Str(Vec<u8>),
    List(Vec<Value>),
    Dict(Vec<(Vec<u8>, Value)>),
}

pub open spec fn items_view(items: Seq<Value>) -> Seq<Term> {
    Seq::new(items.len(), |i: int| items[i]@)
}

pub open spec fn entries_view(entries: Seq<(Vec<u8>, Value)>) -> Seq<(Seq<u8>, Term)> {
    Seq::new(entries.len(), |i: int| (entries[i].0@, entries[i].1@))
}

impl View for Value {
    type V = Term;

    open spec fn view(&self) -> Term
        decreases self,
    {
        match self {
            Value::Int(n) => Term::Int(*n as int),
            Value::Str(b) => Term::Bytes(b@),
            Value::List(items) => Term::List(
                Seq::new(
                    items@.len(),
                    |i: int|
                        if 0 <= i < items@.len() {
                            items@[i].view()
                        } else {
                            Term::Int(0)
                        },
                ),
            ),
            Value::Dict(entries) => Term::Dict(
                Seq::new(
                    entries@.len(),
                    |i: int|
                        if 0 <= i < entries@.len() {
                            (entries@[i].0@, entries@[i].1.view())
                        } else {
                            (Seq::empty(), Term::Int(0))
                        },
                ),
            ),
        }
    }
}

// ---------------------------------------------------------------------------
// Canonical encoding
// ---------------------------------------------------------------------------

/// Decimal digits of a natural number, without leading zeros.
pub open spec fn nat_text(n: nat) -> Seq<u8>
    decreases n,
{
    if n < 10 {
        seq![(48 + n) as u8]
    } else {
        nat_text(n / 10) + seq![(48 + n % 10) as u8]
    }
}

/// Decimal text of an integer: a minus sign for negative values, then the digits.
pub open spec fn int_text(n: int) -> Seq<u8> {
    if n < 0 {
        seq![MINUS] + nat_text((-n) as nat)
    } else {
        nat_text(n as nat)
    }
}

pub open spec fn encode_bytes(b: Seq<u8>) -> Seq<u8> {
    nat_text(b.len()) + seq![COLON] + b
}

pub open spec fn encode_term(t: Term) -> Seq<u8>
    decreases t, 1int,
{
    match t {
        Term::Int(n) => seq![INT_MARK] + int_text(n) + seq![END_MARK],
        Term::Bytes(b) => encode_bytes(b),
        Term::List(items) => seq![LIST_MARK] + encode_items(items, items.len() as int) + seq![END_MARK],
        Term::Dict(entries) => seq![DICT_MARK] + encode_entries(entries, entries.len() as int) + seq![
            END_MARK,
        ],
    }
}

/// Encoding of the first `n` items of a list, back to back.
pub open spec fn encode_items(items: Seq<Term>, n: int) -> Seq<u8>
    decreases items, n,
{
    if n <= 0 || n > items.len() {
        Seq::empty()
    } else {
        encode_items(items, n - 1) + encode_term(items[n - 1])
    }
}

/// Encoding of the first `n` entries of a dictionary: each key as a byte string, then its value.
pub open spec fn encode_entries(entries: Seq<(Seq<u8>, Term)>, n: int) -> Seq<u8>
    decreases entries, n,
{
    if n <= 0 || n > entries.len() {
        Seq::empty()
    } else {
        encode_entries(entries, n - 1) + encode_bytes(entries[n - 1].0) + encode_term(
            entries[n - 1].1,
        )
    }
}

/// Strict lexicographic order on byte strings.
pub open spec fn lex_lt(a: Seq<u8>, b: Seq<u8>) -> bool
    decreases a.len(),
{
    if a.len() == 0 {
        b.len() > 0
    } else if b.len() == 0 {
        false
    } else if a[0] != b[0] {
        a[0] < b[0]
    } else {
        lex_lt(a.drop_first(), b.drop_first())
    }
}

pub open spec fn keys_ascending(entries: Seq<(Seq<u8>, Term)>) -> bool {
    forall|i: int, j: int| 0 <= i < j < entries.len() ==> lex_lt(entries[i].0, entries[j].0)
}

/// A value in canonical shape: integers fit in 64 bits and dictionary keys ascend strictly.
pub open spec fn well_formed(t: Term) -> bool
    decreases t,
{
    match t {
        Term::Int(n) => i64::MIN <= n <= i64::MAX,
        Term::Bytes(b) => true,
        Term::List(items) => forall|i: int| 0 <= i < items.len() ==> well_formed(#[trigger] items[i]),
        Term::Dict(entries) => keys_ascending(entries) && forall|i: int|
            0 <= i < entries.len() ==> well_formed(#[trigger] entries[i].1),
    }
}

// ---------------------------------------------------------------------------
// Decoding
// ---------------------------------------------------------------------------

pub open spec fn is_digit(b: u8) -> bool {
    48 <= b <= 57
}

/// Number of consecutive ASCII digits starting at `p`.
pub open spec fn digit_run(s: Seq<u8>, p: int) -> nat
    decreases s.len() - p,
{
    if 0 <= p < s.len() && is_digit(s[p]) {
        1 + digit_run(s, p + 1)
    } else {
        0
    }
}

/// The number that a sequence of decimal digits denotes.
pub open spec fn digits_value(d: Seq<u8>) -> nat
    decreases d.len(),
{
    if d.len() == 0 {
        0
    } else {
        digits_value(d.drop_last()) * 10 + (d.last() - 48) as nat
    }
}

/// A byte string `<length>:<bytes>` at `p`: its payload and the position after it.
pub open spec fn parse_bytes(s: Seq<u8>, p: int) -> Option<(Seq<u8>, int)> {
    let k = digit_run(s, p);
    let colon = p + k;
    if p < 0 || k == 0 || colon >= s.len() || s[colon] != COLON {
        None
    } else {
        let n = digits_value(s.subrange(p, colon));
        let start = colon + 1;
        if start + n > s.len() {
            None
        } else {
            Some((s.subrange(start, start + n), start + n))
        }
    }
}

/// An integer `i<digits>e` at `p`, with an optional minus sign; no leading zeros, no `-0`.
pub open spec fn parse_int(s: Seq<u8>, p: int) -> Option<(int, int)> {
    let neg = p + 1 < s.len() && s[p + 1] == MINUS;
    let q = if neg {
        p + 2
    } else {
        p + 1
    };
    let k = digit_run(s, q);
    let e = q + k;
    if p < 0 || k == 0 || e >= s.len() || s[e] != END_MARK || (k > 1 && s[q] == ZERO) {
        None
    } else {
        let m = digits_value(s.subrange(q, e));
        if neg && m == 0 {
            None
        } else {
            let v = if neg {
                -m
            } else {
                m as int
            };
            if v < i64::MIN || v > i64::MAX {
                None
            } else {
                Some((v, e + 1))
            }
        }
    }
}

/// Number of leading entries whose key sorts before `k`.
pub open spec fn insert_pos(entries: Seq<(Seq<u8>, Term)>, k: Seq<u8>) -> nat
    decreases entries.len(),
{
    if entries.len() == 0 {
        0
    } else if lex_lt(entries[0].0, k) {
        1 + insert_pos(entries.drop_first(), k)
    } else {
        0
    }
}

/// Adds an entry at its place in key order; `None` when the key is already there.
pub open spec fn dict_insert(entries: Seq<(Seq<u8>, Term)>, k: Seq<u8>, v: Term) -> Option<
    Seq<(Seq<u8>, Term)>,
> {
    let i = insert_pos(entries, k) as int;
    if i < entries.len() && entries[i].0 == k {
        None
    } else {
        Some(entries.insert(i, (k, v)))
    }
}

/// The value that starts at `p`, and the position just after it.
pub open spec fn parse_value(s: Seq<u8>, p: int) -> Option<(Term, int)>
    decreases s.len() - p, 0int,
{
    if p < 0 || p >= s.len() {
        None
    } else if s[p] == INT_MARK {
        match parse_int(s, p) {
            Some((n, e)) => Some((Term::Int(n), e)),
            None => None,
        }
    } else if is_digit(s[p]) {
        match parse_bytes(s, p) {
            Some((b, e)) => Some((Term::Bytes(b), e)),
            None => None,
        }
    } else if s[p] == LIST_MARK {
        parse_list(s, p + 1, Seq::empty())
    } else if s[p] == DICT_MARK {
        parse_dict(s, p + 1, Seq::empty())
    } else {
        None
    }
}

/// The rest of a list from `p` on, after the items `acc` already read.
pub open spec fn parse_list(s: Seq<u8>, p: int, acc: Seq<Term>) -> Option<(Term, int)>
    decreases s.len() - p, 1int,
{
    if p < 0 || p >= s.len() {
        None
    } else if s[p] == END_MARK {
        Some((Term::List(acc), p + 1))
    } else {
        match parse_value(s, p) {
            None => None,
            Some((v, q)) => if q <= p || q > s.len() {
                None
            } else {
                parse_list(s, q, acc.push(v))
            },
        }
    }
}

/// The rest of a dictionary from `p` on, after the entries `acc` already read.
pub open spec fn parse_dict(s: Seq<u8>, p: int, acc: Seq<(Seq<u8>, Term)>) -> Option<(Term, int)>
    decreases s.len() - p, 1int,
{
    if p < 0 || p >= s.len() {
        None
    } else if s[p] == END_MARK {
        Some((Term::Dict(acc), p + 1))
    } else {
        match parse_bytes(s, p) {
            None => None,
            Some((k, q)) => if q <= p || q >= s.len() {
                None
            } else {
                match parse_value(s, q) {
                    None => None,
                    Some((v, r)) => if r <= q || r > s.len() {
                        None
                    } else {
                        match dict_insert(acc, k, v) {
                            None => None,
                            Some(acc2) => parse_dict(s, r, acc2),
                        }
                    },
                }
            },
        }
    }
}

/// The value that the whole input encodes.
pub open spec fn decode_term(s: Seq<u8>) -> Option<Term> {
    match parse_value(s, 0) {
        Some((t, e)) => if e == s.len() {
            Some(t)
        } else {
            None
        },
        None => None,
    }
}

} // verus!

verus! {

/// Bound above which digit runs are not told apart: no length or 64-bit integer reaches it.
pub const DIGITS_CAP: u128 = 0x1_0000_0000_0000_0000;

pub open spec fn capped(n: nat) -> nat {
    if n >= DIGITS_CAP {
        DIGITS_CAP as nat
    } else {
        n
    }
}

/// Reads the run of digits at `q`: where it ends, and its value (capped).
fn scan_digits(input: &[u8], q: usize) -> (r: (usize, u128))
    requires
        q <= input.len(),
    ensures
        r.0 == q + digit_run(input@, q as int),
        r.0 <= input.len(),
        r.1 == capped(digits_value(input@.subrange(q as int, r.0 as int))),
{
    let mut i: usize = q;
    let mut val: u128 = 0;
    proof {
        assert(input@.subrange(q as int, q as int) =~= Seq::<u8>::empty());
    }
    while i < input.len() && ZERO <= input[i] && input[i] <= 57
        invariant
            q <= i <= input.len(),
            digit_run(input@, q as int) == (i - q) + digit_run(input@, i as int),
            val == capped(digits_value(input@.subrange(q as int, i as int))),
        decreases input.len() - i,
    {
        let d = (input[i] - ZERO) as u128;
        proof {
            let pre = input@.subrange(q as int, i as int);
            let next = input@.subrange(q as int, i + 1);
            assert(next.drop_last() =~= pre);
            assert(digits_value(next) == digits_value(pre) * 10 + d);
        }
        val = val * 10 + d;
        if val > DIGITS_CAP {
            val = DIGITS_CAP;
        }
        i = i + 1;
    }
    (i, val)
}

/// Reads a byte string `<length>:<bytes>` that starts at `pos`.
fn decode_string(input: &[u8], pos: usize) -> (r: Result<(Vec<u8>, usize), Error>)
    requires
        pos <= input.len(),
    ensures
        match r {
            Ok((b, e)) => parse_bytes(input@, pos as int) == Some((b@, e as int)),
            Err(_) => parse_bytes(input@, pos as int) is None,
        },
{
    let (colon, len) = scan_digits(input, pos);
    if colon == pos || colon >= input.len() || input[colon] != COLON {
        return Err(Error::Malformed);
    }
    let start = colon + 1;
    if len > (input.len() - start) as u128 {
        return Err(Error::Malformed);
    }
    let end = start + len as usize;
    let mut out: Vec<u8> = Vec::new();
    let mut i: usize = start;
    while i < end
        invariant
            start <= i <= end <= input.len(),
            out@ == input@.subrange(start as int, i as int),
        decreases end - i,
    {
        out.push(input[i]);
        proof {
            assert(out@ =~= input@.subrange(start as int, i + 1));
        }
        i = i + 1;
    }
    Ok((out, end))
}

/// Reads an integer `i<digits>e` that starts at `pos`.
fn decode_int(input: &[u8], pos: usize) -> (r: Result<(Value, usize), Error>)
    requires
        pos < input.len(),
    ensures
        match r {
            Ok((v, e)) => match v {
                Value::Int(n) => parse_int(input@, pos as int) == Some((n as int, e as int)),
                _ => false,
            },
            Err(_) => parse_int(input@, pos as int) is None,
        },
{
    let neg = pos + 1 < input.len() && input[pos + 1] == MINUS;
    let q = if neg {
        pos + 2
    } else {
        pos + 1
    };
    let (e, m) = scan_digits(input, q);
    if e == q || e >= input.len() || input[e] != END_MARK || (e - q > 1 && input[q] == ZERO) {
        return Err(Error::Malformed);
    }
    if neg && m == 0 {
        return Err(Error::Malformed);
    }
    let n: i64;
    if neg {
        if m > 0x8000_0000_0000_0000 {
            return Err(Error::Malformed);
        }
        n = (-(m as i128)) as i64;
    } else {
        if m > 0x7fff_ffff_ffff_ffff {
            return Err(Error::Malformed);
        }
        n = m as i64;
    }
    Ok((Value::Int(n), e + 1))
}

/// Three-way comparison of byte strings in lexicographic order.
pub fn compare_bytes(a: &[u8], b: &[u8]) -> (r: i8)
    ensures
        (r < 0) == lex_lt(a@, b@),
        (r == 0) == (a@ == b@),
        (r > 0) == lex_lt(b@, a@),
{
    let mut i: usize = 0;
    proof {
        assert(a@.skip(0) =~= a@);
        assert(b@.skip(0) =~= b@);
        assert(a@.subrange(0, 0) =~= b@.subrange(0, 0));
    }
    while i < a.len() && i < b.len()
        invariant
            i <= a.len(),
            i <= b.len(),
            a@.subrange(0, i as int) == b@.subrange(0, i as int),
            lex_lt(a@, b@) == lex_lt(a@.skip(i as int), b@.skip(i as int)),
            lex_lt(b@, a@) == lex_lt(b@.skip(i as int), a@.skip(i as int)),
        decreases a.len() - i,
    {
        if a[i] != b[i] {
            proof {
                assert(a@.skip(i as int)[0] == a@[i as int]);
                assert(b@.skip(i as int)[0] == b@[i as int]);
                assert(a@[i as int] != b@[i as int]);
            }
            if a[i] < b[i] {
                return -1;
            } else {
                return 1;
            }
        }
        proof {
            assert(a@.skip(i as int).drop_first() =~= a@.skip(i + 1));
            assert(b@.skip(i as int).drop_first() =~= b@.skip(i + 1));
            assert(a@.subrange(0, i + 1) =~= a@.subrange(0, i as int).push(a@[i as int]));
            assert(b@.subrange(0, i + 1) =~= b@.subrange(0, i as int).push(b@[i as int]));
        }
        i = i + 1;
    }
    proof {
        assert(a@.skip(i as int).len() == 0 || b@.skip(i as int).len() == 0);
        if a.len() == b.len() {
            assert(a@ =~= a@.subrange(0, i as int));
            assert(b@ =~= b@.subrange(0, i as int));
        } else {
            assert(a@.len() != b@.len());
        }
    }
    if a.len() < b.len() {
        -1
    } else if a.len() == b.len() {
        0
    } else {
        1
    }
}

} // verus!

verus! {

pub(crate) proof fn lemma_list_view(items: Vec<Value>)
    ensures
        Value::List(items)@ == Term::List(items_view(items@)),
{
    assert(Value::List(items)@->List_0 =~= items_view(items@));
}

pub(crate) proof fn lemma_dict_view(entries: Vec<(Vec<u8>, Value)>)
    ensures
        Value::Dict(entries)@ == Term::Dict(entries_view(entries@)),
{
    let a = Value::Dict(entries)@->Dict_0;
    let b = entries_view(entries@);
    reveal_with_fuel(<Value as View>::view, 2);
    assert(a.len() == entries@.len());
    assert forall|i: int| 0 <= i < a.len() implies a[i] == b[i] by {
        assert(a[i].0 == b[i].0);
        assert(a[i].1 == b[i].1);
    }
    assert(a =~= b);
}

/// Adds an entry at its place in key order; false, and nothing changed, when the key is there.
fn insert_entry(entries: &mut Vec<(Vec<u8>, Value)>, key: Vec<u8>, value: Value) -> (ok: bool)
    ensures
        ok == dict_insert(entries_view(old(entries)@), key@, value@) is Some,
        ok ==> dict_insert(entries_view(old(entries)@), key@, value@) == Some(
            entries_view(final(entries)@),
        ),
{
    let ghost ev = entries_view(entries@);
    let mut i: usize = 0;
    proof {
        assert(ev.skip(0) =~= ev);
    }
    while i < entries.len() && compare_bytes(entries[i].0.as_slice(), key.as_slice()) < 0
        invariant
            i <= entries.len(),
            ev == entries_view(entries@),
            insert_pos(ev, key@) == i + insert_pos(ev.skip(i as int), key@),
        decreases entries.len() - i,
    {
        proof {
            assert(ev.skip(i as int)[0] == ev[i as int]);
            assert(ev.skip(i as int).drop_first() =~= ev.skip(i + 1));
        }
        i = i + 1;
    }
    proof {
        if i < entries.len() {
            assert(ev.skip(i as int)[0] == ev[i as int]);
        }
    }
    if i < entries.len() && compare_bytes(entries[i].0.as_slice(), key.as_slice()) == 0 {
        return false;
    }
    let ghost kv = key@;
    let ghost vv = value@;
    entries.insert(i, (key, value));
    proof {
        assert(entries_view(entries@) =~= ev.insert(i as int, (kv, vv)));
    }
    true
}

/// Reads the rest of a list, from just after its opening `l`.
fn decode_list(input: &[u8], start: usize) -> (r: Result<(Value, usize), Error>)
    requires
        start <= input.len(),
    ensures
        match r {
            Ok((v, e)) => parse_list(input@, start as int, Seq::empty()) == Some((v@, e as int)),
            Err(_) => parse_list(input@, start as int, Seq::empty()) is None,
        },
    decreases input.len() - start, 1int,
{
    let mut items: Vec<Value> = Vec::new();
    let mut pos: usize = start;
    proof {
        assert(items_view(items@) =~= Seq::<Term>::empty());
    }
    loop
        invariant
            start <= pos <= input.len(),
            parse_list(input@, start as int, Seq::empty()) == parse_list(
                input@,
                pos as int,
                items_view(items@),
            ),
        decreases input.len() - pos,
    {
        if pos >= input.len() {
            return Err(Error::Malformed);
        }
        if input[pos] == END_MARK {
            proof {
                lemma_list_view(items);
            }
            return Ok((Value::List(items), pos + 1));
        }
        match decode_value_inner(input, pos) {
            Err(e) => {
                return Err(e);
            },
            Ok((v, q)) => {
                if q <= pos || q > input.len() {
                    return Err(Error::Malformed);
                }
                proof {
                    assert(items_view(items@.push(v)) =~= items_view(items@).push(v@));
                }
                items.push(v);
                pos = q;
            },
        }
    }
}

/// Reads the rest of a dictionary, from just after its opening `d`.
fn decode_dict(input: &[u8], start: usize) -> (r: Result<(Value, usize), Error>)
    requires
        start <= input.len(),
    ensures
        match r {
            Ok((v, e)) => parse_dict(input@, start as int, Seq::empty()) == Some((v@, e as int)),
            Err(_) => parse_dict(input@, start as int, Seq::empty()) is None,
        },
    decreases input.len() - start, 1int,
{
    let mut entries: Vec<(Vec<u8>, Value)> = Vec::new();
    let mut pos: usize = start;
    proof {
        assert(entries_view(entries@) =~= Seq::<(Seq<u8>, Term)>::empty());
    }
    loop
        invariant
            start <= pos <= input.len(),
            parse_dict(input@, start as int, Seq::empty()) == parse_dict(
                input@,
                pos as int,
                entries_view(entries@),
            ),
        decreases input.len() - pos,
    {
        if pos >= input.len() {
            return Err(Error::Malformed);
        }
        if input[pos] == END_MARK {
            proof {
                lemma_dict_view(entries);
            }
            return Ok((Value::Dict(entries), pos + 1));
        }
        let (key, q) = match decode_string(input, pos) {
            Err(e) => {
                return Err(e);
            },
            Ok(kq) => kq,
        };
        if q <= pos || q >= input.len() {
            return Err(Error::Malformed);
        }
        let (value, r) = match decode_value_inner(input, q) {
            Err(e) => {
                return Err(e);
            },
            Ok(vr) => vr,
        };
        if r <= q || r > input.len() {
            return Err(Error::Malformed);
        }
        if !insert_entry(&mut entries, key, value) {
            return Err(Error::Malformed);
        }
        pos = r;
    }
}

/// Reads the value that starts at `pos`; returns it with the position just after it.
fn decode_value_inner(input: &[u8], pos: usize) -> (r: Result<(Value, usize), Error>)
    requires
        pos <= input.len(),
    ensures
        match r {
            Ok((v, e)) => parse_value(input@, pos as int) == Some((v@, e as int)),
            Err(_) => parse_value(input@, pos as int) is None,
        },
    decreases input.len() - pos, 0int,
{
    if pos >= input.len() {
        return Err(Error::Malformed);
    }
    let first = input[pos];
    if first == INT_MARK {
        decode_int(input, pos)
    } else if ZERO <= first && first <= 57 {
        match decode_string(input, pos) {
            Ok((b, e)) => Ok((Value::Str(b), e)),
            Err(e) => Err(e),
        }
    } else if first == LIST_MARK {
        decode_list(input, pos + 1)
    } else if first == DICT_MARK {
        decode_dict(input, pos + 1)
    } else {
        Err(Error::Malformed)
    }
}

/// Decodes a whole input; trailing bytes are an error.
pub fn decode_value(input: &[u8]) -> (r: Result<Value, Error>)
    ensures
        match r {
            Ok(v) => decode_term(input@) == Some(v@) && well_formed(v@),
            Err(e) => decode_term(input@) is None && e == Error::Malformed,
        },
{
    match decode_value_inner(input, 0) {
        Ok((v, e)) => {
            if e != input.len() {
                Err(Error::Malformed)
            } else {
                proof {
                    lemma_decoded_well_formed(input@);
                }
                Ok(v)
            }
        },
        Err(_) => Err(Error::Malformed),
    }
}

/// Decodes the bytes of a string.
pub fn decode_value_str(input: &str) -> (r: Result<Value, Error>)
    ensures
        match r {
            Ok(v) => decode_term(input.spec_bytes()) == Some(v@) && well_formed(v@),
            Err(e) => decode_term(input.spec_bytes()) is None && e == Error::Malformed,
        },
{
    decode_value(input.as_bytes())
}

} // verus!

verus! {

// ---------------------------------------------------------------------------
// Encoding
// ---------------------------------------------------------------------------

fn write_nat(n: u64, out: &mut Vec<u8>)
    ensures
        final(out)@ == old(out)@ + nat_text(n as nat),
    decreases n,
{
    if n < 10 {
        out.push(ZERO + n as u8);
        proof {
            assert(final(out)@ =~= old(out)@ + nat_text(n as nat));
        }
    } else {
        write_nat(n / 10, out);
        out.push(ZERO + (n % 10) as u8);
        proof {
            assert(final(out)@ =~= old(out)@ + nat_text(n as nat));
        }
    }
}

pub(crate) fn write_int(n: i64, out: &mut Vec<u8>)
    ensures
        final(out)@ == old(out)@ + int_text(n as int),
{
    if n < 0 {
        out.push(MINUS);
        let m = (-(n as i128)) as u64;
        write_nat(m, out);
        proof {
            assert(final(out)@ =~= old(out)@ + int_text(n as int));
        }
    } else {
        write_nat(n as u64, out);
    }
}

pub fn push_bytes(out: &mut Vec<u8>, b: &[u8])
    ensures
        final(out)@ == old(out)@ + b@,
{
    let ghost start = out@;
    let mut i: usize = 0;
    while i < b.len()
        invariant
            i <= b.len(),
            out@ == start + b@.subrange(0, i as int),
        decreases b.len() - i,
    {
        out.push(b[i]);
        proof {
            assert(out@ =~= start + b@.subrange(0, i + 1));
        }
        i = i + 1;
    }
    proof {
        assert(b@.subrange(0, i as int) =~= b@);
    }
}

pub(crate) fn write_bytes(b: &[u8], out: &mut Vec<u8>)
    ensures
        final(out)@ == old(out)@ + encode_bytes(b@),
{
    write_nat(b.len() as u64, out);
    out.push(COLON);
    push_bytes(out, b);
    proof {
        assert(final(out)@ =~= old(out)@ + encode_bytes(b@));
    }
}

/// Appends the canonical encoding of `value` to `out`.
pub fn encode_into(value: &Value, out: &mut Vec<u8>)
    requires
        well_formed(value@),
    ensures
        final(out)@ == old(out)@ + encode_term(value@),
    decreases value@,
{
    broadcast use vstd::std_specs::vec::group_vec_axioms;

    match value {
        Value::Int(n) => {
            out.push(INT_MARK);
            write_int(*n, out);
            out.push(END_MARK);
            proof {
                assert(final(out)@ =~= old(out)@ + encode_term(value@));
            }
        },
        Value::Str(b) => {
            write_bytes(b.as_slice(), out);
        },
        Value::List(items) => {
            let ghost tv = items_view(items@);
            proof {
                lemma_list_view(*items);
            }
            out.push(LIST_MARK);
            let ghost head = out@;
            let mut i: usize = 0;
            while i < items.len()
                invariant
                    i <= items.len(),
                    tv == items_view(items@),
                    value@ == Term::List(tv),
                    well_formed(value@),
                    out@ == head + encode_items(tv, i as int),
                decreases items.len() - i,
            {
                proof {
                    assert(tv[i as int] == items[i as int]@);
                    assert(decreases_to!(value@ => value@->List_0));
                    assert(decreases_to!(tv => tv[i as int]));
                    assert(well_formed(tv[i as int]));
                }
                encode_into(&items[i], out);
                proof {
                    assert(out@ =~= head + encode_items(tv, i + 1));
                }
                i = i + 1;
            }
            out.push(END_MARK);
            proof {
                assert(final(out)@ =~= old(out)@ + encode_term(value@));
            }
        },
        Value::Dict(entries) => {
            let ghost tv = entries_view(entries@);
            proof {
                lemma_dict_view(*entries);
            }
            out.push(DICT_MARK);
            let ghost head = out@;
            let mut i: usize = 0;
            while i < entries.len()
                invariant
                    i <= entries.len(),
                    tv == entries_view(entries@),
                    value@ == Term::Dict(tv),
                    well_formed(value@),
                    out@ == head + encode_entries(tv, i as int),
                decreases entries.len() - i,
            {
                write_bytes(entries[i].0.as_slice(), out);
                proof {
                    assert(tv[i as int].1 == entries[i as int].1@);
                    assert(decreases_to!(value@ => value@->Dict_0));
                    assert(decreases_to!(tv => tv[i as int]));
                    assert(decreases_to!(tv[i as int] => tv[i as int].1));
                    assert(well_formed(tv[i as int].1));
                }
                encode_into(&entries[i].1, out);
                proof {
                    assert(out@ =~= head + encode_entries(tv, i + 1));
                }
                i = i + 1;
            }
            out.push(END_MARK);
            proof {
                assert(final(out)@ =~= old(out)@ + encode_term(value@));
            }
        },
    }
}

/// The canonical encoding of a well-formed value, which decodes back to it.
pub fn bencode_value(value: &Value) -> (r: Vec<u8>)
    requires
        well_formed(value@),
    ensures
        r@ == encode_term(value@),
        decode_term(r@) == Some(value@),
{
    let mut out: Vec<u8> = Vec::new();
    encode_into(value, &mut out);
    proof {
        assert(out@ =~= encode_term(value@));
        lemma_decode_encode(value@);
    }
    out
}

} // verus!

verus! {

// ---------------------------------------------------------------------------
// Round trip
// ---------------------------------------------------------------------------

/// `x` stands in `s` from position `p` on.
pub open spec fn occurs_at(s: Seq<u8>, p: int, x: Seq<u8>) -> bool {
    0 <= p && p + x.len() <= s.len() && s.subrange(p, p + x.len()) == x
}

/// An input that is the canonical encoding of some value.
pub open spec fn is_canonical(b: Seq<u8>) -> bool {
    exists|t: Term| well_formed(t) && encode_term(t) == b
}

proof fn lemma_occurs_split(s: Seq<u8>, p: int, x: Seq<u8>, y: Seq<u8>)
    requires
        occurs_at(s, p, x + y),
    ensures
        occurs_at(s, p, x),
        occurs_at(s, p + x.len(), y),
{
    let whole = s.subrange(p, p + x.len() + y.len());
    assert(whole == x + y);
    assert(s.subrange(p, p + x.len()) =~= whole.subrange(0, x.len() as int));
    assert((x + y).subrange(0, x.len() as int) =~= x);
    assert(s.subrange(p + x.len(), p + x.len() + y.len()) =~= whole.subrange(
        x.len() as int,
        (x.len() + y.len()) as int,
    ));
    assert((x + y).subrange(x.len() as int, (x.len() + y.len()) as int) =~= y);
}

pub(crate) proof fn lemma_nat_text(n: nat)
    ensures
        nat_text(n).len() >= 1,
        forall|j: int| 0 <= j < nat_text(n).len() ==> is_digit(#[trigger] nat_text(n)[j]),
        digits_value(nat_text(n)) == n,
        nat_text(n).len() > 1 ==> nat_text(n)[0] != ZERO,
    decreases n,
{
    if n >= 10 {
        lemma_nat_text(n / 10);
        let t = nat_text(n);
        assert(t.drop_last() =~= nat_text(n / 10));
        assert(t.last() == (48 + n % 10) as u8);
        assert(t[0] == nat_text(n / 10)[0]);
        if n / 10 < 10 {
            assert(nat_text(n / 10)[0] == (48 + n / 10) as u8);
        } else {
            lemma_nat_text(n / 10 / 10);
            assert(nat_text(n / 10).len() > 1);
        }
    } else {
        assert(nat_text(n).drop_last() =~= Seq::<u8>::empty());
        assert(nat_text(n).last() == (48 + n) as u8);
        assert(digits_value(Seq::<u8>::empty()) == 0);
    }
}

proof fn lemma_digit_run(s: Seq<u8>, p: int, k: int)
    requires
        0 <= p,
        0 <= k,
        p + k <= s.len(),
        forall|j: int| p <= j < p + k ==> is_digit(#[trigger] s[j]),
        p + k < s.len() ==> !is_digit(s[p + k]),
    ensures
        digit_run(s, p) == k,
    decreases k,
{
    if k > 0 {
        lemma_digit_run(s, p + 1, k - 1);
    }
}

proof fn lemma_parse_bytes(b: Seq<u8>, s: Seq<u8>, p: int)
    requires
        occurs_at(s, p, encode_bytes(b)),
    ensures
        parse_bytes(s, p) == Some((b, p + encode_bytes(b).len())),
{
    let t = nat_text(b.len());
    lemma_nat_text(b.len());
    lemma_occurs_split(s, p, t + seq![COLON], b);
    lemma_occurs_split(s, p, t, seq![COLON]);
    assert forall|j: int| p <= j < p + t.len() implies is_digit(#[trigger] s[j]) by {
        assert(s[j] == s.subrange(p, p + t.len())[j - p]);
    }
    assert(s[p + t.len()] == s.subrange(p + t.len(), p + t.len() + 1)[0]);
    lemma_digit_run(s, p, t.len() as int);
}

proof fn lemma_parse_int(n: int, s: Seq<u8>, p: int)
    requires
        i64::MIN <= n <= i64::MAX,
        occurs_at(s, p, encode_term(Term::Int(n))),
    ensures
        parse_int(s, p) == Some((n, p + encode_term(Term::Int(n)).len())),
{
    let m: nat = if n < 0 {
        (-n) as nat
    } else {
        n as nat
    };
    let t = nat_text(m);
    lemma_nat_text(m);
    let q = if n < 0 {
        p + 2
    } else {
        p + 1
    };
    if n < 0 {
        assert(encode_term(Term::Int(n)) == seq![INT_MARK] + seq![MINUS] + t + seq![END_MARK]) by {
            assert(encode_term(Term::Int(n)) =~= seq![INT_MARK] + seq![MINUS] + t + seq![END_MARK]);
        }
        lemma_occurs_split(s, p, seq![INT_MARK] + seq![MINUS] + t, seq![END_MARK]);
        lemma_occurs_split(s, p, seq![INT_MARK] + seq![MINUS], t);
        lemma_occurs_split(s, p, seq![INT_MARK], seq![MINUS]);
        assert(s[p + 1] == s.subrange(p + 1, p + 2)[0]);
    } else {
        lemma_occurs_split(s, p, seq![INT_MARK] + t, seq![END_MARK]);
        lemma_occurs_split(s, p, seq![INT_MARK], t);
        assert(s[p + 1] == s.subrange(p + 1, p + 1 + t.len())[0]);
    }
    assert forall|j: int| q <= j < q + t.len() implies is_digit(#[trigger] s[j]) by {
        assert(s[j] == s.subrange(q, q + t.len())[j - q]);
    }
    assert(s[q + t.len()] == s.subrange(q + t.len(), q + t.len() + 1)[0]);
    assert(s[q] == s.subrange(q, q + t.len())[0]);
    lemma_digit_run(s, q, t.len() as int);
}

proof fn lemma_first_byte(t: Term)
    ensures
        encode_term(t).len() > 0,
        encode_term(t)[0] != END_MARK,
{
    match t {
        Term::Bytes(b) => {
            lemma_nat_text(b.len());
            assert(encode_term(t)[0] == nat_text(b.len())[0]);
        },
        _ => {},
    }
}

proof fn lemma_insert_pos_all(acc: Seq<(Seq<u8>, Term)>, k: Seq<u8>)
    requires
        forall|j: int| 0 <= j < acc.len() ==> lex_lt(#[trigger] acc[j].0, k),
    ensures
        insert_pos(acc, k) == acc.len(),
    decreases acc.len(),
{
    if acc.len() > 0 {
        assert(lex_lt(acc[0].0, k));
        lemma_insert_pos_all(acc.drop_first(), k);
    }
}

proof fn lemma_items_occur(items: Seq<Term>, s: Seq<u8>, base: int, k: int, j: int)
    requires
        0 <= j <= k <= items.len(),
        occurs_at(s, base, encode_items(items, k)),
    ensures
        occurs_at(s, base, encode_items(items, j)),
    decreases k - j,
{
    if j < k {
        lemma_occurs_split(s, base, encode_items(items, k - 1), encode_term(items[k - 1]));
        lemma_items_occur(items, s, base, k - 1, j);
    }
}

proof fn lemma_entries_occur(
    entries: Seq<(Seq<u8>, Term)>,
    s: Seq<u8>,
    base: int,
    k: int,
    j: int,
)
    requires
        0 <= j <= k <= entries.len(),
        occurs_at(s, base, encode_entries(entries, k)),
    ensures
        occurs_at(s, base, encode_entries(entries, j)),
    decreases k - j,
{
    if j < k {
        lemma_occurs_split(
            s,
            base,
            encode_entries(entries, k - 1) + encode_bytes(entries[k - 1].0),
            encode_term(entries[k - 1].1),
        );
        lemma_occurs_split(
            s,
            base,
            encode_entries(entries, k - 1),
            encode_bytes(entries[k - 1].0),
        );
        lemma_entries_occur(entries, s, base, k - 1, j);
    }
}

/// Parsing the encoding of a well-formed value, wherever it stands, reads exactly that value.
proof fn lemma_parse_term(t: Term, s: Seq<u8>, p: int)
    requires
        well_formed(t),
        occurs_at(s, p, encode_term(t)),
    ensures
        parse_value(s, p) == Some((t, p + encode_term(t).len())),
    decreases t, 0int,
{
    let e = encode_term(t);
    lemma_first_byte(t);
    assert(s[p] == s.subrange(p, p + e.len())[0]);
    match t {
        Term::Int(n) => {
            lemma_parse_int(n, s, p);
        },
        Term::Bytes(b) => {
            lemma_nat_text(b.len());
            assert(e[0] == nat_text(b.len())[0]);
            lemma_parse_bytes(b, s, p);
        },
        Term::List(items) => {
            let body = encode_items(items, items.len() as int);
            assert(e =~= seq![LIST_MARK] + (body + seq![END_MARK]));
            lemma_occurs_split(s, p, seq![LIST_MARK], body + seq![END_MARK]);
            assert(items.take(0) =~= Seq::<Term>::empty());
            lemma_parse_items(items, s, p + 1, 0);
        },
        Term::Dict(entries) => {
            let body = encode_entries(entries, entries.len() as int);
            assert(e =~= seq![DICT_MARK] + (body + seq![END_MARK]));
            lemma_occurs_split(s, p, seq![DICT_MARK], body + seq![END_MARK]);
            assert(entries.take(0) =~= Seq::<(Seq<u8>, Term)>::empty());
            lemma_parse_entries(entries, s, p + 1, 0);
        },
    }
}

proof fn lemma_parse_items(items: Seq<Term>, s: Seq<u8>, base: int, i: int)
    requires
        0 <= i <= items.len(),
        forall|j: int| 0 <= j < items.len() ==> well_formed(#[trigger] items[j]),
        occurs_at(s, base, encode_items(items, items.len() as int) + seq![END_MARK]),
    ensures
        parse_list(s, base + encode_items(items, i).len(), items.take(i)) == Some(
            (
                Term::List(items),
                base + encode_items(items, items.len() as int).len() + 1,
            ),
        ),
    decreases items, items.len() - i,
{
    let all = encode_items(items, items.len() as int);
    lemma_occurs_split(s, base, all, seq![END_MARK]);
    let pos = base + encode_items(items, i).len();
    if i == items.len() {
        assert(s[pos] == s.subrange(pos, pos + 1)[0]);
        assert(items.take(i) =~= items);
    } else {
        lemma_items_occur(items, s, base, items.len() as int, i + 1);
        lemma_occurs_split(s, base, encode_items(items, i), encode_term(items[i]));
        lemma_parse_term(items[i], s, pos);
        lemma_first_byte(items[i]);
        let e = encode_term(items[i]);
        assert(s[pos] == s.subrange(pos, pos + e.len())[0]);
        assert(items.take(i).push(items[i]) =~= items.take(i + 1));
        lemma_parse_items(items, s, base, i + 1);
    }
}

proof fn lemma_parse_entries(entries: Seq<(Seq<u8>, Term)>, s: Seq<u8>, base: int, i: int)
    requires
        0 <= i <= entries.len(),
        keys_ascending(entries),
        forall|j: int| 0 <= j < entries.len() ==> well_formed(#[trigger] entries[j].1),
        occurs_at(s, base, encode_entries(entries, entries.len() as int) + seq![END_MARK]),
    ensures
        parse_dict(s, base + encode_entries(entries, i).len(), entries.take(i)) == Some(
            (
                Term::Dict(entries),
                base + encode_entries(entries, entries.len() as int).len() + 1,
            ),
        ),
    decreases entries, entries.len() - i,
{
    let all = encode_entries(entries, entries.len() as int);
    lemma_occurs_split(s, base, all, seq![END_MARK]);
    let pos = base + encode_entries(entries, i).len();
    if i == entries.len() {
        assert(s[pos] == s.subrange(pos, pos + 1)[0]);
        assert(entries.take(i) =~= entries);
    } else {
        let (k, v) = entries[i];
        lemma_entries_occur(entries, s, base, entries.len() as int, i + 1);
        lemma_occurs_split(s, base, encode_entries(entries, i) + encode_bytes(k), encode_term(v));
        lemma_occurs_split(s, base, encode_entries(entries, i), encode_bytes(k));
        lemma_parse_bytes(k, s, pos);
        lemma_nat_text(k.len());
        let kb = encode_bytes(k);
        assert(kb[0] == nat_text(k.len())[0]);
        assert(s[pos] == s.subrange(pos, pos + kb.len())[0]);
        let q = pos + kb.len();
        assert(decreases_to!(entries => entries[i]));
        lemma_parse_term(v, s, q);
        lemma_first_byte(v);
        assert forall|j: int| 0 <= j < entries.take(i).len() implies lex_lt(
            #[trigger] entries.take(i)[j].0,
            k,
        ) by {
            assert(entries.take(i)[j] == entries[j]);
        }
        lemma_insert_pos_all(entries.take(i), k);
        assert(entries.take(i).insert(i, (k, v)) =~= entries.take(i + 1));
        lemma_parse_entries(entries, s, base, i + 1);
    }
}

/// Decoding the canonical encoding of a well-formed value gives that value back.
pub proof fn lemma_decode_encode(t: Term)
    requires
        well_formed(t),
    ensures
        decode_term(encode_term(t)) == Some(t),
{
    let e = encode_term(t);
    assert(e.subrange(0, e.len() as int) =~= e);
    lemma_parse_term(t, e, 0);
}

/// A canonical input decodes, and encoding what it decodes to gives the same bytes back.
pub proof fn lemma_canonical_round_trip(b: Seq<u8>)
    requires
        is_canonical(b),
    ensures
        decode_term(b) is Some,
        encode_term(decode_term(b)->Some_0) == b,
{
    let t = choose|t: Term| well_formed(t) && encode_term(t) == b;
    lemma_decode_encode(t);
}

} // verus!

verus! {

impl Value {
    /// The kind of value: `int`, `string`, `list` or `dictionary`.
    pub fn get_variant_name(&self) -> (r: &'static str)
        ensures
            self is Int ==> r@ == "int"@,
            self is Str ==> r@ == "string"@,
            self is List ==> r@ == "list"@,
            self is Dict ==> r@ == "dictionary"@,
    {
        match self {
            Value::Int(_) => "int",
            Value::Str(_) => "string",
            Value::List(_) => "list",
            Value::Dict(_) => "dictionary",
        }
    }
}

} // verus!

verus! {

// ---------------------------------------------------------------------------
// Decoded values are well-formed
// ---------------------------------------------------------------------------

proof fn lemma_lex_total(a: Seq<u8>, b: Seq<u8>)
    requires
        a != b,
    ensures
        lex_lt(a, b) || lex_lt(b, a),
    decreases a.len(),
{
    if a.len() > 0 && b.len() > 0 && a[0] == b[0] {
        if a.drop_first() == b.drop_first() {
            assert(a =~= seq![a[0]] + a.drop_first());
            assert(b =~= seq![b[0]] + b.drop_first());
        }
        lemma_lex_total(a.drop_first(), b.drop_first());
    } else if a.len() == 0 && b.len() == 0 {
        assert(a =~= b);
    }
}

proof fn lemma_lex_transitive(a: Seq<u8>, b: Seq<u8>, c: Seq<u8>)
    requires
        lex_lt(a, b),
        lex_lt(b, c),
    ensures
        lex_lt(a, c),
    decreases a.len(),
{
    if a.len() > 0 && b.len() > 0 && c.len() > 0 && a[0] == b[0] && b[0] == c[0] {
        lemma_lex_transitive(a.drop_first(), b.drop_first(), c.drop_first());
    }
}

proof fn lemma_insert_pos(entries: Seq<(Seq<u8>, Term)>, k: Seq<u8>)
    ensures
        insert_pos(entries, k) <= entries.len(),
        forall|j: int| 0 <= j < insert_pos(entries, k) ==> lex_lt(#[trigger] entries[j].0, k),
        insert_pos(entries, k) < entries.len() ==> !lex_lt(entries[insert_pos(entries, k) as int].0, k),
    decreases entries.len(),
{
    if entries.len() > 0 && lex_lt(entries[0].0, k) {
        let rest = entries.drop_first();
        lemma_insert_pos(rest, k);
        assert forall|j: int| 0 <= j < insert_pos(entries, k) implies lex_lt(
            #[trigger] entries[j].0,
            k,
        ) by {
            if j > 0 {
                assert(entries[j] == rest[j - 1]);
            }
        }
    }
}

/// Inserting keeps the keys in strictly ascending order.
proof fn lemma_dict_insert_ascending(entries: Seq<(Seq<u8>, Term)>, k: Seq<u8>, v: Term)
    requires
        keys_ascending(entries),
        dict_insert(entries, k, v) is Some,
    ensures
        keys_ascending(dict_insert(entries, k, v)->Some_0),
{
    let i = insert_pos(entries, k) as int;
    lemma_insert_pos(entries, k);
    let s2 = entries.insert(i, (k, v));
    assert forall|j: int| i <= j < entries.len() implies lex_lt(k, #[trigger] entries[j].0) by {
        lemma_lex_total(entries[i].0, k);
        if j > i {
            lemma_lex_transitive(k, entries[i].0, entries[j].0);
        }
    }
    assert forall|x: int, y: int| 0 <= x < y < s2.len() implies lex_lt(s2[x].0, s2[y].0) by {
        if y < i {
        } else if y == i {
        } else if x < i {
            assert(s2[y] == entries[y - 1]);
        } else if x == i {
            assert(s2[y] == entries[y - 1]);
        } else {
            assert(s2[x] == entries[x - 1]);
            assert(s2[y] == entries[y - 1]);
        }
    }
}

proof fn lemma_parse_value_wf(s: Seq<u8>, p: int)
    requires
        parse_value(s, p) is Some,
    ensures
        well_formed(parse_value(s, p)->Some_0.0),
    decreases s.len() - p, 0int,
{
    if s[p] == LIST_MARK {
        lemma_parse_list_wf(s, p + 1, Seq::empty());
    } else if s[p] == DICT_MARK {
        lemma_parse_dict_wf(s, p + 1, Seq::empty());
    }
}

proof fn lemma_parse_list_wf(s: Seq<u8>, p: int, acc: Seq<Term>)
    requires
        forall|i: int| 0 <= i < acc.len() ==> well_formed(#[trigger] acc[i]),
        parse_list(s, p, acc) is Some,
    ensures
        well_formed(parse_list(s, p, acc)->Some_0.0),
    decreases s.len() - p, 1int,
{
    if s[p] != END_MARK {
        let (v, q) = parse_value(s, p)->Some_0;
        lemma_parse_value_wf(s, p);
        let acc2 = acc.push(v);
        assert forall|i: int| 0 <= i < acc2.len() implies well_formed(#[trigger] acc2[i]) by {
            if i < acc.len() {
                assert(acc2[i] == acc[i]);
            }
        }
        lemma_parse_list_wf(s, q, acc2);
    }
}

proof fn lemma_parse_dict_wf(s: Seq<u8>, p: int, acc: Seq<(Seq<u8>, Term)>)
    requires
        keys_ascending(acc),
        forall|i: int| 0 <= i < acc.len() ==> well_formed(#[trigger] acc[i].1),
        parse_dict(s, p, acc) is Some,
    ensures
        well_formed(parse_dict(s, p, acc)->Some_0.0),
    decreases s.len() - p, 1int,
{
    if s[p] != END_MARK {
        let (k, q) = parse_bytes(s, p)->Some_0;
        let (v, r) = parse_value(s, q)->Some_0;
        lemma_parse_value_wf(s, q);
        lemma_dict_insert_ascending(acc, k, v);
        let acc2 = dict_insert(acc, k, v)->Some_0;
        let i = insert_pos(acc, k) as int;
        lemma_insert_pos(acc, k);
        assert forall|j: int| 0 <= j < acc2.len() implies well_formed(#[trigger] acc2[j].1) by {
            if j < i {
                assert(acc2[j] == acc[j]);
            } else if j > i {
                assert(acc2[j] == acc[j - 1]);
            }
        }
        lemma_parse_dict_wf(s, r, acc2);
    }
}

/// Whatever decodes is well-formed: integers fit in 64 bits and dictionary keys are unique and
/// ascending, whatever order the input gave them in.
pub proof fn lemma_decoded_well_formed(s: Seq<u8>)
    requires
        decode_term(s) is Some,
    ensures
        well_formed(decode_term(s)->Some_0),
{
    lemma_parse_value_wf(s, 0);
}

/// Decoding is idempotent through the encoder: what an input decodes to encodes canonically, and
/// that encoding decodes to the same value.
pub proof fn lemma_reencode_stable(s: Seq<u8>)
    requires
        decode_term(s) is Some,
    ensures
        decode_term(encode_term(decode_term(s)->Some_0)) == decode_term(s),
        is_canonical(encode_term(decode_term(s)->Some_0)),
{
    lemma_decoded_well_formed(s);
    lemma_decode_encode(decode_term(s)->Some_0);
}

} // verus!

verus! {

/// A copy of a value.
pub fn copy_value(value: &Value) -> (r: Value)
    ensures
        r@ == value@,
    decreases value@,
{
    match value {
        Value::Int(n) => Value::Int(*n),
        Value::Str(b) => {
            let mut c: Vec<u8> = Vec::new();
            push_bytes(&mut c, b.as_slice());
            proof {
                assert(c@ =~= b@);
            }
            Value::Str(c)
        },
        Value::List(items) => {
            let ghost tv = items_view(items@);
            proof {
                lemma_list_view(*items);
            }
            let mut copies: Vec<Value> = Vec::new();
            let mut i: usize = 0;
            while i < items.len()
                invariant
                    i <= items.len(),
                    tv == items_view(items@),
                    value@ == Term::List(tv),
                    items_view(copies@) == tv.subrange(0, i as int),
                decreases items.len() - i,
            {
                proof {
                    assert(tv[i as int] == items[i as int]@);
                    assert(decreases_to!(value@ => value@->List_0));
                    assert(decreases_to!(tv => tv[i as int]));
                }
                let c = copy_value(&items[i]);
                proof {
                    assert(items_view(copies@.push(c)) =~= items_view(copies@).push(c@));
                    assert(tv.subrange(0, i + 1) =~= tv.subrange(0, i as int).push(tv[i as int]));
                }
                copies.push(c);
                i = i + 1;
            }
            proof {
                lemma_list_view(copies);
                assert(tv.subrange(0, i as int) =~= tv);
            }
            Value::List(copies)
        },
        Value::Dict(entries) => {
            let ghost tv = entries_view(entries@);
            proof {
                lemma_dict_view(*entries);
            }
            let mut copies: Vec<(Vec<u8>, Value)> = Vec::new();
            let mut i: usize = 0;
            while i < entries.len()
                invariant
                    i <= entries.len(),
                    tv == entries_view(entries@),
                    value@ == Term::Dict(tv),
                    entries_view(copies@) == tv.subrange(0, i as int),
                decreases entries.len() - i,
            {
                proof {
                    assert(tv[i as int].1 == entries[i as int].1@);
                    assert(decreases_to!(value@ => value@->Dict_0));
                    assert(decreases_to!(tv => tv[i as int]));
                    assert(decreases_to!(tv[i as int] => tv[i as int].1));
                }
                let mut k: Vec<u8> = Vec::new();
                push_bytes(&mut k, entries[i].0.as_slice());
                let c = copy_value(&entries[i].1);
                proof {
                    assert(k@ =~= entries[i as int].0@);
                    assert(entries_view(copies@.push((k, c))) =~= entries_view(copies@).push((k@, c@)));
                    assert(tv.subrange(0, i + 1) =~= tv.subrange(0, i as int).push(tv[i as int]));
                }
                copies.push((k, c));
                i = i + 1;
            }
            proof {
                lemma_dict_view(copies);
                assert(tv.subrange(0, i as int) =~= tv);
            }
            Value::Dict(copies)
        },
    }
}

} // verus!
