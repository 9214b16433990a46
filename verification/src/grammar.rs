//! The grammar of JSON text, as scanner functions that consume one
//! syntactic form from the front of a character sequence, and the proof
//! that every record the formatter renders is a syntactically valid JSON
//! object on a single line.

use vstd::prelude::*;

use crate::json::{escape_char, hex_digit, json_escape, render_entries, render_entry,
    render_record, render_value};
use crate::fields::kv_values_wf;
use crate::text::{dec_digit, dec_str, int_str, lemma_dec_str_digits};
use crate::value::{digits_end, is_digit, is_json_number, lemma_digits_end, value_wf, JsonData};

verus! {

pub open spec fn is_hex_digit(c: char) -> bool {
    is_digit(c) || ('a' <= c && c <= 'f') || ('A' <= c && c <= 'F')
}

/// Consumes the body of a JSON string after its opening quote, up to and
/// including the closing quote; control characters must be escaped, a
/// backslash must begin one of the escapes the grammar allows.
pub open spec fn scan_string_body(s: Seq<char>) -> Option<Seq<char>>
    decreases s.len(),
{
    if s.len() == 0 {
        None
    } else if s[0] == '"' {
        Some(s.drop_first())
    } else if s[0] == '\\' {
        if s.len() < 2 {
            None
        } else if s[1] == '"' || s[1] == '\\' || s[1] == '/' || s[1] == 'b' || s[1] == 'f' || s[1]
            == 'n' || s[1] == 'r' || s[1] == 't' {
            scan_string_body(s.skip(2))
        } else if s[1] == 'u' {
            if s.len() >= 6 && is_hex_digit(s[2]) && is_hex_digit(s[3]) && is_hex_digit(s[4])
                && is_hex_digit(s[5]) {
                scan_string_body(s.skip(6))
            } else {
                None
            }
        } else {
            None
        }
    } else if (s[0] as u32) < 0x20 {
        None
    } else {
        scan_string_body(s.drop_first())
    }
}

/// Consumes one JSON number: an optional minus sign, an integer part with
/// no leading zero, an optional fraction, an optional exponent.
pub open spec fn scan_number(s: Seq<char>) -> Option<Seq<char>> {
    let i0: int = if s.len() > 0 && s[0] == '-' {
        1
    } else {
        0
    };
    let i1 = digits_end(s, i0);
    let i2 = if i1 < s.len() && s[i1] == '.' {
        digits_end(s, i1 + 1)
    } else {
        i1
    };
    let j = if i2 < s.len() && (s[i2] == 'e' || s[i2] == 'E') {
        if i2 + 1 < s.len() && (s[i2 + 1] == '+' || s[i2 + 1] == '-') {
            i2 + 2
        } else {
            i2 + 1
        }
    } else {
        i2
    };
    let i3 = if j == i2 {
        i2
    } else {
        digits_end(s, j)
    };
    if i0 < s.len() && i1 > i0 && (s[i0] == '0' ==> i1 == i0 + 1) && (i1 < s.len() && s[i1] == '.'
        ==> i2 > i1 + 1) && (j != i2 ==> i3 > j) {
        Some(s.skip(i3))
    } else {
        None
    }
}

/// Consumes one JSON value: a string, a number, or one of the three
/// literal names. (The records this crate renders nest no arrays or
/// objects inside values, so none are needed to cover them.)
pub open spec fn scan_value(s: Seq<char>) -> Option<Seq<char>> {
    if s.len() == 0 {
        None
    } else if s[0] == '"' {
        scan_string_body(s.drop_first())
    } else if s[0] == 't' {
        if s.len() >= 4 && s[1] == 'r' && s[2] == 'u' && s[3] == 'e' {
            Some(s.skip(4))
        } else {
            None
        }
    } else if s[0] == 'f' {
        if s.len() >= 5 && s[1] == 'a' && s[2] == 'l' && s[3] == 's' && s[4] == 'e' {
            Some(s.skip(5))
        } else {
            None
        }
    } else if s[0] == 'n' {
        if s.len() >= 4 && s[1] == 'u' && s[2] == 'l' && s[3] == 'l' {
            Some(s.skip(4))
        } else {
            None
        }
    } else {
        scan_number(s)
    }
}

pub proof fn lemma_scan_string_body_shrinks(s: Seq<char>, r: Seq<char>)
    requires
        scan_string_body(s) == Some(r),
    ensures
        r.len() < s.len(),
    decreases s.len(),
{
    if s[0] == '"' {
    } else if s[0] == '\\' {
        if s[1] == 'u' {
            lemma_scan_string_body_shrinks(s.skip(6), r);
        } else {
            lemma_scan_string_body_shrinks(s.skip(2), r);
        }
    } else {
        lemma_scan_string_body_shrinks(s.drop_first(), r);
    }
}

pub proof fn lemma_scan_value_shrinks(s: Seq<char>, r: Seq<char>)
    requires
        scan_value(s) == Some(r),
    ensures
        r.len() < s.len(),
{
    if s[0] == '"' {
        lemma_scan_string_body_shrinks(s.drop_first(), r);
    } else if s[0] == 't' || s[0] == 'f' || s[0] == 'n' {
    } else {
        let i0: int = if s.len() > 0 && s[0] == '-' {
            1
        } else {
            0
        };
        lemma_digits_end(s, i0);
        let i1 = digits_end(s, i0);
        if i1 < s.len() && s[i1] == '.' {
            lemma_digits_end(s, i1 + 1);
        }
        let i2 = if i1 < s.len() && s[i1] == '.' {
            digits_end(s, i1 + 1)
        } else {
            i1
        };
        let j = if i2 < s.len() && (s[i2] == 'e' || s[i2] == 'E') {
            if i2 + 1 < s.len() && (s[i2 + 1] == '+' || s[i2 + 1] == '-') {
                i2 + 2
            } else {
                i2 + 1
            }
        } else {
            i2
        };
        if j != i2 && j <= s.len() {
            lemma_digits_end(s, j);
        }
    }
}

/// Consumes a nonempty member list: `"name":value` pairs separated by
/// commas.
pub open spec fn scan_members(s: Seq<char>) -> Option<Seq<char>>
    decreases s.len(),
    via scan_members_decreases
{
    if s.len() == 0 || s[0] != '"' {
        None
    } else {
        match scan_string_body(s.drop_first()) {
            None => None,
            Some(r1) => if r1.len() > 0 && r1[0] == ':' {
                match scan_value(r1.drop_first()) {
                    None => None,
                    Some(r2) => if r2.len() > 0 && r2[0] == ',' {
                        scan_members(r2.drop_first())
                    } else {
                        Some(r2)
                    },
                }
            } else {
                None
            },
        }
    }
}

#[via_fn]
proof fn scan_members_decreases(s: Seq<char>) {
    if s.len() > 0 && s[0] == '"' {
        match scan_string_body(s.drop_first()) {
            None => {},
            Some(r1) => {
                lemma_scan_string_body_shrinks(s.drop_first(), r1);
                if r1.len() > 0 && r1[0] == ':' {
                    match scan_value(r1.drop_first()) {
                        None => {},
                        Some(r2) => {
                            lemma_scan_value_shrinks(r1.drop_first(), r2);
                        },
                    }
                }
            },
        }
    }
}

/// `s` is one syntactically valid JSON object: a brace pair around an
/// optional member list.
pub open spec fn is_json_object_text(s: Seq<char>) -> bool {
    &&& s.len() >= 2
    &&& s[0] == '{'
    &&& if s[1] == '}' {
        s.len() == 2
    } else {
        match scan_members(s.drop_first()) {
            Some(r) => r.len() == 1 && r[0] == '}',
            None => false,
        }
    }
}

proof fn lemma_hex_digit_is_hex(d: int)
    requires
        0 <= d < 16,
    ensures
        is_hex_digit(hex_digit(d)),
{
    if d < 10 {
        assert(is_digit(dec_digit(d)));
    }
}

/// The escaping of any text, closed by a quote, scans as one string body.
proof fn lemma_scan_escaped(t: Seq<char>, rest: Seq<char>)
    ensures
        scan_string_body(json_escape(t) + seq!['"'] + rest) == Some(rest),
    decreases t.len(),
{
    let s = json_escape(t) + seq!['"'] + rest;
    if t.len() == 0 {
        assert(json_escape(t) =~= Seq::<char>::empty());
        assert(s[0] == '"');
        assert(s.drop_first() =~= rest);
    } else {
        let c = t[0];
        let e = escape_char(c);
        let tail = json_escape(t.drop_first()) + seq!['"'] + rest;
        assert(s =~= e + tail);
        lemma_scan_escaped(t.drop_first(), rest);
        if c == '"' || c == '\\' || c == '\u{8}' || c == '\t' || c == '\n' || c == '\u{c}' || c
            == '\r' {
            assert(s[0] == '\\');
            assert(s.skip(2) =~= tail);
        } else if (c as u32) < 0x20 {
            lemma_hex_digit_is_hex(((c as u32) / 16) as int);
            lemma_hex_digit_is_hex(((c as u32) % 16) as int);
            assert(s[0] == '\\' && s[1] == 'u');
            assert(is_digit(s[2]) && is_digit(s[3]));
            assert(s.skip(6) =~= tail);
        } else {
            assert(s[0] == c);
            assert(s.drop_first() =~= tail);
        }
    }
}

/// The first index at or after `i` without a digit is `e` exactly when the
/// digits run from `i` to `e` and stop there.
proof fn lemma_digits_end_is(s: Seq<char>, i: int, e: int)
    requires
        0 <= i <= e <= s.len(),
        forall|k: int| i <= k < e ==> is_digit(#[trigger] s[k]),
        e < s.len() ==> !is_digit(s[e]),
    ensures
        digits_end(s, i) == e,
    decreases e - i,
{
    if i < e {
        assert(is_digit(s[i]));
        lemma_digits_end_is(s, i + 1, e);
    }
}

proof fn lemma_dec_str_shape(n: nat)
    ensures
        dec_str(n).len() >= 1,
        n >= 1 ==> dec_str(n)[0] != '0',
        dec_str(n)[0] == '0' ==> dec_str(n).len() == 1,
    decreases n,
{
    if n < 10 {
        if n >= 1 {
            assert(dec_digit(n as int) != '0');
        }
    } else {
        lemma_dec_str_shape(n / 10);
        assert(n / 10 >= 1);
        assert(dec_str(n)[0] == dec_str(n / 10)[0]);
    }
}

/// Decimal renderings are grammatical JSON numbers.
proof fn lemma_is_json_number_dec(n: nat)
    ensures
        is_json_number(dec_str(n)),
{
    let t = dec_str(n);
    lemma_dec_str_digits(n);
    lemma_dec_str_shape(n);
    assert(forall|k: int| 0 <= k < t.len() ==> is_digit(#[trigger] t[k]));
    assert(t[0] != '-');
    lemma_digits_end_is(t, 0, t.len() as int);
}

proof fn lemma_is_json_number_int(n: int)
    ensures
        is_json_number(int_str(n)),
{
    if n >= 0 {
        lemma_is_json_number_dec(n as nat);
    } else {
        let m = (-n) as nat;
        let t = int_str(n);
        lemma_dec_str_digits(m);
        lemma_dec_str_shape(m);
        assert(t =~= seq!['-'] + dec_str(m));
        assert(t[0] == '-');
        assert(forall|k: int| 1 <= k < t.len() ==> is_digit(#[trigger] t[k])) by {
            assert(forall|k: int| 1 <= k < t.len() ==> t[k] == dec_str(m)[k - 1]);
        }
        lemma_digits_end_is(t, 1, t.len() as int);
        assert(t[1] == dec_str(m)[0]);
    }
}

/// A grammatical number followed by a member or object terminator scans as
/// exactly that number.
proof fn lemma_scan_number_concat(t: Seq<char>, rest: Seq<char>)
    requires
        is_json_number(t),
        rest.len() > 0,
        rest[0] == ',' || rest[0] == '}',
    ensures
        scan_number(t + rest) == Some(rest),
{
    let u = t + rest;
    let i0: int = if t.len() > 0 && t[0] == '-' {
        1
    } else {
        0
    };
    let i1 = digits_end(t, i0);
    lemma_digits_end(t, i0);
    let i2 = if i1 < t.len() && t[i1] == '.' {
        digits_end(t, i1 + 1)
    } else {
        i1
    };
    if i1 < t.len() && t[i1] == '.' {
        lemma_digits_end(t, i1 + 1);
    }
    let j = if i2 < t.len() && (t[i2] == 'e' || t[i2] == 'E') {
        if i2 + 1 < t.len() && (t[i2 + 1] == '+' || t[i2 + 1] == '-') {
            i2 + 2
        } else {
            i2 + 1
        }
    } else {
        i2
    };
    let i3 = if j == i2 {
        i2
    } else {
        digits_end(t, j)
    };
    if j != i2 {
        lemma_digits_end(t, j);
    }
    assert(i3 == t.len());
    assert(!is_digit(rest[0]));
    assert(rest[0] != '.' && rest[0] != 'e' && rest[0] != 'E' && rest[0] != '+' && rest[0] != '-');
    // The parse positions carry over to the concatenation unchanged.
    assert(u[0] == t[0]);
    assert(digits_end(u, i0) == i1) by {
        assert(forall|k: int| i0 <= k < i1 ==> is_digit(#[trigger] u[k]));
        if i1 < u.len() {
            if i1 < t.len() {
                assert(u[i1] == t[i1]);
            } else {
                assert(u[i1] == rest[0]);
            }
        }
        lemma_digits_end_is(u, i0, i1);
    }
    if i1 < t.len() && t[i1] == '.' {
        assert(u[i1] == '.');
        assert(digits_end(u, i1 + 1) == i2) by {
            assert(forall|k: int| i1 + 1 <= k < i2 ==> is_digit(#[trigger] u[k]));
            if i2 < u.len() {
                if i2 < t.len() {
                    assert(u[i2] == t[i2]);
                } else {
                    assert(u[i2] == rest[0]);
                }
            }
            lemma_digits_end_is(u, i1 + 1, i2);
        }
    } else {
        if i1 < u.len() {
            if i1 < t.len() {
                assert(u[i1] == t[i1]);
            } else {
                assert(u[i1] == rest[0]);
            }
            assert(u[i1] != '.');
        }
    }
    if i2 < t.len() && (t[i2] == 'e' || t[i2] == 'E') {
        assert(u[i2] == t[i2]);
        if i2 + 1 < t.len() {
            assert(u[i2 + 1] == t[i2 + 1]);
        } else {
            assert(i2 + 1 < u.len() ==> u[i2 + 1] == rest[0]);
        }
        assert(digits_end(u, j) == i3) by {
            assert(forall|k: int| j <= k < i3 ==> is_digit(#[trigger] u[k]));
            if i3 < u.len() {
                assert(u[i3] == rest[0]);
            }
            lemma_digits_end_is(u, j, i3);
        }
    } else {
        if i2 < u.len() {
            if i2 < t.len() {
                assert(u[i2] == t[i2]);
            } else {
                assert(u[i2] == rest[0]);
            }
            assert(u[i2] != 'e' && u[i2] != 'E');
        }
    }
    assert(u.skip(t.len() as int) =~= rest);
}

/// Every rendered value followed by a member or object terminator scans as
/// one JSON value.
proof fn lemma_scan_render_value(v: JsonData, rest: Seq<char>)
    requires
        value_wf(v),
        rest.len() > 0,
        rest[0] == ',' || rest[0] == '}',
    ensures
        scan_value(render_value(v) + rest) == Some(rest),
{
    let u = render_value(v) + rest;
    match v {
        JsonData::Null => {
            reveal_strlit("null");
            assert("null"@ =~= seq!['n', 'u', 'l', 'l']);
            assert(u[0] == 'n' && u[1] == 'u' && u[2] == 'l' && u[3] == 'l');
            assert(u.skip(4) =~= rest);
        },
        JsonData::Bool(b) => {
            if b {
                reveal_strlit("true");
                assert("true"@ =~= seq!['t', 'r', 'u', 'e']);
                assert(u[0] == 't' && u[1] == 'r' && u[2] == 'u' && u[3] == 'e');
                assert(u.skip(4) =~= rest);
            } else {
                reveal_strlit("false");
                assert("false"@ =~= seq!['f', 'a', 'l', 's', 'e']);
                assert(u[0] == 'f' && u[1] == 'a' && u[2] == 'l' && u[3] == 's' && u[4] == 'e');
                assert(u.skip(5) =~= rest);
            }
        },
        JsonData::I64(n) => {
            lemma_is_json_number_int(n as int);
            lemma_number_first_char(int_str(n as int));
            lemma_scan_number_concat(int_str(n as int), rest);
        },
        JsonData::U64(n) => {
            lemma_is_json_number_dec(n as nat);
            lemma_number_first_char(dec_str(n as nat));
            lemma_scan_number_concat(dec_str(n as nat), rest);
        },
        JsonData::Str(s) => {
            assert(u[0] == '"');
            assert(u.drop_first() =~= json_escape(s) + seq!['"'] + rest);
            lemma_scan_escaped(s, rest);
        },
        JsonData::Num(s) => {
            lemma_number_first_char(s);
            lemma_scan_number_concat(s, rest);
        },
    }
}

/// A grammatical number starts with a minus sign or a digit, so the value
/// scanner dispatches it to the number rule.
proof fn lemma_number_first_char(t: Seq<char>)
    requires
        is_json_number(t),
    ensures
        t.len() > 0,
        t[0] == '-' || is_digit(t[0]),
        t[0] != '"' && t[0] != 't' && t[0] != 'f' && t[0] != 'n',
{
    let i0: int = if t.len() > 0 && t[0] == '-' {
        1
    } else {
        0
    };
    lemma_digits_end(t, i0);
    if t[0] != '-' {
        assert(is_digit(t[0]));
    }
}

/// A rendered nonempty member list, closed by a brace, scans as members
/// with exactly the brace left.
proof fn lemma_scan_render_members(entries: Seq<(Seq<char>, JsonData)>)
    requires
        entries.len() >= 1,
        kv_values_wf(entries),
    ensures
        scan_members(render_entries(entries) + seq!['}']) == Some(seq!['}']),
    decreases entries.len(),
{
    let e = entries[0];
    assert(value_wf(e.1));
    if entries.len() == 1 {
        let after_key: Seq<char> = seq![':'] + render_value(e.1) + seq!['}'];
        let u = render_entries(entries) + seq!['}'];
        assert(u =~= seq!['"'] + (json_escape(e.0) + seq!['"'] + after_key));
        assert(u[0] == '"');
        assert(u.drop_first() =~= json_escape(e.0) + seq!['"'] + after_key);
        lemma_scan_escaped(e.0, after_key);
        assert(after_key[0] == ':');
        assert(after_key.drop_first() =~= render_value(e.1) + seq!['}']);
        lemma_scan_render_value(e.1, seq!['}']);
    } else {
        let more = entries.drop_first();
        assert(kv_values_wf(more)) by {
            assert(forall|i: int| 0 <= i < more.len() ==> (#[trigger] more[i]) == entries[i + 1]);
        }
        lemma_scan_render_members(more);
        let tail_rest: Seq<char> = seq![','] + render_entries(more) + seq!['}'];
        let after_key: Seq<char> = seq![':'] + render_value(e.1) + tail_rest;
        let u = render_entries(entries) + seq!['}'];
        assert(u =~= seq!['"'] + (json_escape(e.0) + seq!['"'] + after_key));
        assert(u[0] == '"');
        assert(u.drop_first() =~= json_escape(e.0) + seq!['"'] + after_key);
        lemma_scan_escaped(e.0, after_key);
        assert(after_key[0] == ':');
        assert(after_key.drop_first() =~= render_value(e.1) + tail_rest);
        assert(tail_rest[0] == ',');
        lemma_scan_render_value(e.1, tail_rest);
        assert(tail_rest.drop_first() =~= render_entries(more) + seq!['}']);
    }
}

/// Every rendered record, with its line separator stripped, is one
/// syntactically valid JSON object.
pub proof fn lemma_record_is_valid_json(entries: Seq<(Seq<char>, JsonData)>)
    requires
        kv_values_wf(entries),
    ensures
        render_record(entries).last() == '\n',
        is_json_object_text(render_record(entries).drop_last()),
{
    let line = render_record(entries);
    let body = line.drop_last();
    assert(body =~= seq!['{'] + render_entries(entries) + seq!['}']);
    if entries.len() == 0 {
        assert(render_entries(entries) =~= Seq::<char>::empty());
        assert(body[1] == '}' && body.len() == 2);
    } else {
        assert(render_entries(entries)[0] == render_entry(entries[0])[0]);
        assert(body[1] == '"');
        assert(body.drop_first() =~= render_entries(entries) + seq!['}']);
        lemma_scan_render_members(entries);
    }
}

} // verus!
