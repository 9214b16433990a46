//! Field values: the JSON-representable values a field accumulator stores,
//! their mathematical model, and the grammar of JSON number text.

use vstd::prelude::*;
use vstd::string::StrSliceExecFns;

verus! {

/// Mathematical model of a JSON-representable field value.
pub enum JsonData {
    Null,
    Bool(bool),
    I64(i64),
    U64(u64),
    Str(Seq<char>),
    Num(Seq<char>),
}

/// A JSON-representable field value.
///
/// `Num` carries the decimal text of a JSON number (used for values, such as
/// floating-point readings, that the host renders to number text before
/// recording); a well-formed accumulator only holds `Num` text accepted by
/// [`is_json_number`].
#[derive(Debug, PartialEq)]
pub enum FieldValue {
    Null,
    Bool(bool),
    I64(i64),
    U64(u64),
    Str(String),
    Num(String),
}

impl View for FieldValue {
    type V = JsonData;

    open spec fn view(&self) -> JsonData {
        match self {
            FieldValue::Null => JsonData::Null,
            FieldValue::Bool(b) => JsonData::Bool(*b),
            FieldValue::I64(n) => JsonData::I64(*n),
            FieldValue::U64(n) => JsonData::U64(*n),
            FieldValue::Str(s) => JsonData::Str(s@),
            FieldValue::Num(s) => JsonData::Num(s@),
        }
    }
}

/// A value is well formed when any number text it carries is grammatical.
pub open spec fn value_wf(v: JsonData) -> bool {
    match v {
        JsonData::Num(s) => is_json_number(s),
        _ => true,
    }
}

pub open spec fn is_digit(c: char) -> bool {
    '0' <= c && c <= '9'
}

/// The first index at or after `i` that does not hold a decimal digit.
pub open spec fn digits_end(s: Seq<char>, i: int) -> int
    decreases s.len() - i,
{
    if 0 <= i < s.len() && is_digit(s[i]) {
        digits_end(s, i + 1)
    } else {
        i
    }
}

pub proof fn lemma_digits_end(s: Seq<char>, i: int)
    requires
        0 <= i <= s.len(),
    ensures
        i <= digits_end(s, i) <= s.len(),
        forall|k: int| i <= k < digits_end(s, i) ==> is_digit(#[trigger] s[k]),
        digits_end(s, i) < s.len() ==> !is_digit(s[digits_end(s, i)]),
    decreases s.len() - i,
{
    if i < s.len() && is_digit(s[i]) {
        lemma_digits_end(s, i + 1);
    }
}

/// The grammar of a JSON number: an optional minus sign, an integer part
/// with no leading zero, an optional fraction, an optional exponent.
pub open spec fn is_json_number(s: Seq<char>) -> bool {
    let i0: int = if s.len() > 0 && s[0] == '-' {
        1
    } else {
        0
    };
    let i1 = digits_end(s, i0);
    let i2 = if i1 < s.len() && s[i1] == '.' {
        digits_end(s, i1 + 1)
    } else {
        i1
    };
    let j = if i2 < s.len() && (s[i2] == 'e' || s[i2] == 'E') {
        if i2 + 1 < s.len() && (s[i2 + 1] == '+' || s[i2 + 1] == '-') {
            i2 + 2
        } else {
            i2 + 1
        }
    } else {
        i2
    };
    let i3 = if j == i2 {
        i2
    } else {
        digits_end(s, j)
    };
    &&& i0 < s.len()
    &&& i1 > i0
    &&& (s[i0] == '0' ==> i1 == i0 + 1)
    &&& (i1 < s.len() && s[i1] == '.' ==> i2 > i1 + 1)
    &&& (j != i2 ==> i3 > j)
    &&& i3 == s.len()
}

/// Scans past decimal digits, returning the first index that is not one.
fn scan_digits(s: &str, start: usize, len: usize) -> (end: usize)
    requires
        len == s@.len(),
        start <= len,
    ensures
        end as int == digits_end(s@, start as int),
        start <= end <= len,
{
    let mut i: usize = start;
    loop
        invariant
            start <= i <= len,
            len == s@.len(),
            digits_end(s@, start as int) == digits_end(s@, i as int),
        decreases len - i,
    {
        if i == len {
            return i;
        }
        let c = s.get_char(i);
        if c < '0' || c > '9' {
            return i;
        }
        i = i + 1;
    }
}

/// Decides whether `s` is grammatical JSON number text.
pub fn json_number_check(s: &str) -> (r: bool)
    ensures
        r == is_json_number(s@),
{
    let len = s.unicode_len();
    if len == 0 {
        return false;
    }
    let i0: usize = if s.get_char(0) == '-' {
        1
    } else {
        0
    };
    if i0 >= len {
        return false;
    }
    proof {
        lemma_digits_end(s@, i0 as int);
    }
    let i1 = scan_digits(s, i0, len);
    if i1 == i0 {
        return false;
    }
    if s.get_char(i0) == '0' && i1 != i0 + 1 {
        return false;
    }
    let mut i2 = i1;
    if i1 < len && s.get_char(i1) == '.' {
        proof {
            lemma_digits_end(s@, i1 + 1);
        }
        i2 = scan_digits(s, i1 + 1, len);
        if i2 == i1 + 1 {
            return false;
        }
    }
    let mut i3 = i2;
    if i2 < len {
        let c = s.get_char(i2);
        if c == 'e' || c == 'E' {
            let mut j = i2 + 1;
            if j < len {
                let cs = s.get_char(j);
                if cs == '+' || cs == '-' {
                    j = j + 1;
                }
            }
            proof {
                lemma_digits_end(s@, j as int);
            }
            i3 = scan_digits(s, j, len);
            if i3 == j {
                return false;
            }
        }
    }
    i3 == len
}

/// Every character of grammatical number text is a digit, a sign, a dot or
/// an exponent marker; in particular none is a quote, a backslash or a
/// control character.
pub proof fn lemma_json_number_chars(s: Seq<char>)
    requires
        is_json_number(s),
    ensures
        forall|k: int|
            0 <= k < s.len() ==> (is_digit(#[trigger] s[k]) || s[k] == '-' || s[k] == '+' || s[k]
                == '.' || s[k] == 'e' || s[k] == 'E'),
{
    let i0: int = if s.len() > 0 && s[0] == '-' {
        1
    } else {
        0
    };
    let i1 = digits_end(s, i0);
    lemma_digits_end(s, i0);
    let i2 = if i1 < s.len() && s[i1] == '.' {
        digits_end(s, i1 + 1)
    } else {
        i1
    };
    if i1 < s.len() && s[i1] == '.' {
        lemma_digits_end(s, i1 + 1);
    }
    let j = if i2 < s.len() && (s[i2] == 'e' || s[i2] == 'E') {
        if i2 + 1 < s.len() && (s[i2 + 1] == '+' || s[i2 + 1] == '-') {
            i2 + 2
        } else {
            i2 + 1
        }
    } else {
        i2
    };
    if j != i2 {
        lemma_digits_end(s, j);
    }
    assert forall|k: int| 0 <= k < s.len() implies (is_digit(#[trigger] s[k]) || s[k] == '-'
        || s[k] == '+' || s[k] == '.' || s[k] == 'e' || s[k] == 'E') by {
        if k < i0 {
            assert(s[k] == '-');
        } else if k < i1 {
            assert(is_digit(s[k]));
        } else if k == i1 && i1 < i2 {
            assert(s[k] == '.');
        } else if k < i2 {
            assert(is_digit(s[k]));
        } else if k == i2 {
            assert(s[k] == 'e' || s[k] == 'E');
        } else if k < j {
            assert(s[k] == '+' || s[k] == '-');
        } else {
            assert(is_digit(s[k]));
        }
    }
}

} // verus!
