use vstd::prelude::*;
use vstd::string::*;
use vstd::utf8::{decode_utf8, valid_utf8};
use crate::bencode::{
    decode_term, decode_value_str, entries_view, int_text, is_digit, items_view, lemma_dict_view,
    lemma_list_view, lemma_nat_text, nat_text, push_bytes, well_formed, write_int, Term, Value,
    MINUS,
};
use crate::digest::hex_digit;
use crate::error::Error;
use crate::text::string_from_utf8;

verus! {

/// ASCII bytes as characters.
pub open spec fn ascii_text(b: Seq<u8>) -> Seq<char> {
    Seq::new(b.len(), |i: int| b[i] as char)
}

/// How a character stands inside a JSON string: quote and backslash behind a backslash,
/// control characters as `\u00XX`, everything else as it is.
pub open spec fn escape_char(c: char) -> Seq<char> {
    if c == '"' {
        seq!['\\', '"']
    } else if c == '\\' {
        seq!['\\', '\\']
    } else if (c as u32) < 0x20 {
        seq!['\\', 'u', '0', '0', hex_digit((c as u32) as int / 16), hex_digit((c as u32) as int % 16)]
    } else {
        seq![c]
    }
}

pub open spec fn escape_text(s: Seq<char>) -> Seq<char>
    decreases s.len(),
{
    if s.len() == 0 {
        Seq::empty()
    } else {
        escape_text(s.drop_last()) + escape_char(s.last())
    }
}

/// The JSON string literal of a UTF-8 byte string.
pub open spec fn json_string(b: Seq<u8>) -> Seq<char> {
    seq!['"'] + escape_text(decode_utf8(b)) + seq!['"']
}

/// Every string and every key in the value is valid UTF-8.
pub open spec fn all_text(t: Term) -> bool
    decreases t,
{
    match t {
        Term::Int(_) => true,
        Term::Bytes(b) => valid_utf8(b),
        Term::List(items) => forall|i: int| 0 <= i < items.len() ==> all_text(#[trigger] items[i]),
        Term::Dict(entries) => forall|i: int|
            0 <= i < entries.len() ==> valid_utf8((#[trigger] entries[i]).0) && all_text(entries[i].1),
    }
}

proof fn lemma_member_text(entries: Seq<(Seq<u8>, Term)>, i: int)
    requires
        all_text(Term::Dict(entries)),
        0 <= i < entries.len(),
    ensures
        valid_utf8(entries[i].0),
{
    let t = Term::Dict(entries);
    assert(decreases_to!(t => t->Dict_0));
    assert(decreases_to!(entries => entries[i]));
    assert(decreases_to!(entries[i] => entries[i].1));
    assert(valid_utf8(entries[i].0) && all_text(entries[i].1));
}

/// The JSON text of a value: numbers, string literals, arrays, and objects with their keys in
/// the stored order, which is ascending for a well-formed value.
pub open spec fn json_text(t: Term) -> Seq<char>
    decreases t, 1int,
{
    match t {
        Term::Int(n) => ascii_text(int_text(n)),
        Term::Bytes(b) => json_string(b),
        Term::List(items) => seq!['['] + json_items(items, items.len() as int) + seq![']'],
        Term::Dict(entries) => seq!['{'] + json_members(entries, entries.len() as int) + seq!['}'],
    }
}

/// The first `n` items, separated by commas.
pub open spec fn json_items(items: Seq<Term>, n: int) -> Seq<char>
    decreases items, n,
{
    if n <= 0 || n > items.len() {
        Seq::empty()
    } else if n == 1 {
        json_text(items[0])
    } else {
        json_items(items, n - 1) + seq![','] + json_text(items[n - 1])
    }
}

/// The first `n` members `"key":value`, separated by commas.
pub open spec fn json_members(entries: Seq<(Seq<u8>, Term)>, n: int) -> Seq<char>
    decreases entries, n,
{
    if n <= 0 || n > entries.len() {
        Seq::empty()
    } else if n == 1 {
        json_string(entries[0].0) + seq![':'] + json_text(entries[0].1)
    } else {
        json_members(entries, n - 1) + seq![','] + json_string(entries[n - 1].0) + seq![':']
            + json_text(entries[n - 1].1)
    }
}

/// Appends the decimal text of an integer.
fn push_int_text(n: i64, out: &mut String)
    ensures
        final(out)@ == old(out)@ + ascii_text(int_text(n as int)),
{
    let mut bytes: Vec<u8> = Vec::new();
    write_int(n, &mut bytes);
    let ghost t = int_text(n as int);
    proof {
        assert(bytes@ =~= t);
        let m: nat = if n < 0 {
            (-n) as nat
        } else {
            n as nat
        };
        lemma_nat_text(m);
        assert forall|i: int| 0 <= i < t.len() implies #[trigger] t[i] == MINUS || is_digit(t[i]) by {
            if n < 0 && i > 0 {
                assert(t[i] == nat_text(m)[i - 1]);
            }
        }
    }
    let digits = "0123456789abcdef";
    proof {
        reveal_strlit("0123456789abcdef");
        reveal_strlit("-");
    }
    let ghost start = out@;
    let mut i: usize = 0;
    while i < bytes.len()
        invariant
            i <= bytes.len(),
            bytes@ == t,
            forall|j: int| 0 <= j < t.len() ==> #[trigger] t[j] == MINUS || is_digit(t[j]),
            digits@ == "0123456789abcdef"@,
            digits@.len() == 16,
            forall|d: int| 0 <= d < 16 ==> #[trigger] digits@[d] == hex_digit(d),
            "-"@ == seq!['-'],
            out@ == start + ascii_text(t.subrange(0, i as int)),
        decreases bytes.len() - i,
    {
        let b = bytes[i];
        if b == MINUS {
            out.append("-");
        } else {
            let d = (b - 48) as usize;
            out.append(digits.substring_char(d, d + 1));
        }
        proof {
            assert(out@ =~= start + ascii_text(t.subrange(0, i + 1)));
        }
        i = i + 1;
    }
    proof {
        assert(t.subrange(0, i as int) =~= t);
    }
}

/// Appends the characters of `s`, escaped for a JSON string.
fn push_escaped(s: &str, out: &mut String)
    ensures
        final(out)@ == old(out)@ + escape_text(s@),
{
    let hex = "0123456789abcdef";
    proof {
        reveal_strlit("0123456789abcdef");
        reveal_strlit("\\\"");
        reveal_strlit("\\\\");
        reveal_strlit("\\u00");
    }
    let n = s.unicode_len();
    let ghost start = out@;
    let mut i: usize = 0;
    proof {
        assert(s@.subrange(0, 0) =~= Seq::<char>::empty());
    }
    while i < n
        invariant
            n == s@.len(),
            i <= n,
            hex@.len() == 16,
            forall|d: int| 0 <= d < 16 ==> #[trigger] hex@[d] == hex_digit(d),
            "\\\""@ == seq!['\\', '"'],
            "\\\\"@ == seq!['\\', '\\'],
            "\\u00"@ == seq!['\\', 'u', '0', '0'],
            out@ == start + escape_text(s@.subrange(0, i as int)),
        decreases n - i,
    {
        let c = s.get_char(i);
        let ghost before = out@;
        if c == '"' {
            out.append("\\\"");
        } else if c == '\\' {
            out.append("\\\\");
        } else if (c as u32) < 0x20 {
            let v = c as u32;
            out.append("\\u00");
            let hi = (v / 16) as usize;
            let lo = (v % 16) as usize;
            out.append(hex.substring_char(hi, hi + 1));
            out.append(hex.substring_char(lo, lo + 1));
        } else {
            out.append(s.substring_char(i, i + 1));
        }
        proof {
            assert(out@ =~= before + escape_char(c));
            assert(s@.subrange(0, i + 1).drop_last() =~= s@.subrange(0, i as int));
            assert(out@ =~= start + escape_text(s@.subrange(0, i + 1)));
        }
        i = i + 1;
    }
    proof {
        assert(s@.subrange(0, i as int) =~= s@);
    }
}

/// Appends the JSON string literal of a byte string; false, when it is not UTF-8.
fn push_json_string(b: &[u8], out: &mut String) -> (ok: bool)
    ensures
        ok == valid_utf8(b@),
        ok ==> final(out)@ == old(out)@ + json_string(b@),
{
    let mut copy: Vec<u8> = Vec::new();
    push_bytes(&mut copy, b);
    proof {
        assert(copy@ =~= b@);
    }
    match string_from_utf8(copy) {
        None => false,
        Some(s) => {
            proof {
                reveal_strlit("\"");
            }
            out.append("\"");
            push_escaped(s.as_str(), out);
            out.append("\"");
            proof {
                assert(final(out)@ =~= old(out)@ + json_string(b@));
            }
            true
        },
    }
}

fn json_into(value: &Value, out: &mut String) -> (ok: bool)
    ensures
        ok == all_text(value@),
        ok ==> final(out)@ == old(out)@ + json_text(value@),
    decreases value@,
{
    proof {
        reveal_strlit("[");
        reveal_strlit("]");
        reveal_strlit("{");
        reveal_strlit("}");
        reveal_strlit(",");
        reveal_strlit(":");
    }
    match value {
        Value::Int(n) => {
            push_int_text(*n, out);
            true
        },
        Value::Str(b) => push_json_string(b.as_slice(), out),
        Value::List(items) => {
            let ghost tv = items_view(items@);
            proof {
                lemma_list_view(*items);
            }
            out.append("[");
            let ghost head = out@;
            let mut i: usize = 0;
            while i < items.len()
                invariant
                    i <= items.len(),
                    tv == items_view(items@),
                    value@ == Term::List(tv),
                    forall|j: int| 0 <= j < i ==> all_text(#[trigger] tv[j]),
                    out@ == head + json_items(tv, i as int),
                    ","@ == seq![','],
                decreases items.len() - i,
            {
                if i > 0 {
                    out.append(",");
                }
                proof {
                    assert(tv[i as int] == items[i as int]@);
                    assert(decreases_to!(value@ => value@->List_0));
                    assert(decreases_to!(tv => tv[i as int]));
                }
                if !json_into(&items[i], out) {
                    return false;
                }
                proof {
                    assert(out@ =~= head + json_items(tv, i + 1));
                }
                i = i + 1;
            }
            out.append("]");
            proof {
                assert(final(out)@ =~= old(out)@ + json_text(value@));
            }
            true
        },
        Value::Dict(entries) => {
            let ghost tv = entries_view(entries@);
            proof {
                lemma_dict_view(*entries);
            }
            out.append("{");
            let ghost head = out@;
            let mut i: usize = 0;
            while i < entries.len()
                invariant
                    i <= entries.len(),
                    tv == entries_view(entries@),
                    value@ == Term::Dict(tv),
                    forall|j: int| 0 <= j < i ==> valid_utf8((#[trigger] tv[j]).0) && all_text(tv[j].1),
                    out@ == head + json_members(tv, i as int),
                    ","@ == seq![','],
                    ":"@ == seq![':'],
                decreases entries.len() - i,
            {
                if i > 0 {
                    out.append(",");
                }
                if !push_json_string(entries[i].0.as_slice(), out) {
                    proof {
                        assert(tv[i as int].0 == entries[i as int].0@);
                        assert(!valid_utf8((tv[i as int]).0));
                        if all_text(Term::Dict(tv)) {
                            lemma_member_text(tv, i as int);
                        }
                    }
                    return false;
                }
                out.append(":");
                proof {
                    assert(tv[i as int].1 == entries[i as int].1@);
                    assert(decreases_to!(value@ => value@->Dict_0));
                    assert(decreases_to!(tv => tv[i as int]));
                    assert(decreases_to!(tv[i as int] => tv[i as int].1));
                }
                if !json_into(&entries[i].1, out) {
                    return false;
                }
                proof {
                    assert(out@ =~= head + json_members(tv, i + 1));
                }
                i = i + 1;
            }
            out.append("}");
            proof {
                assert(final(out)@ =~= old(out)@ + json_text(value@));
            }
            true
        },
    }
}

/// The JSON text of a value; an error when a string or key is not UTF-8.
pub fn json_encode_value(value: &Value) -> (r: Result<String, Error>)
    requires
        well_formed(value@),
    ensures
        r is Ok <==> all_text(value@),
        r matches Ok(s) ==> s@ == json_text(value@),
        r matches Err(e) ==> e == Error::Malformed,
{
    let mut out = String::new();
    if json_into(value, &mut out) {
        proof {
            assert(out@ =~= json_text(value@));
        }
        Ok(out)
    } else {
        Err(Error::Malformed)
    }
}

/// Decodes a bencoded string and gives its JSON text.
pub fn decode_command(value: &str) -> (r: Result<String, Error>)
    ensures
        r is Ok <==> (decode_term(value.spec_bytes()) matches Some(t) && all_text(t)),
        r matches Ok(s) ==> s@ == json_text(decode_term(value.spec_bytes())->Some_0),
        r matches Err(e) ==> e == Error::Malformed,
{
    match decode_value_str(value) {
        Ok(v) => json_encode_value(&v),
        Err(e) => Err(e),
    }
}

} // verus!
