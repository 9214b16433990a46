//! Plain-text building blocks shared by the record renderer: decimal
//! rendering of integers and the lexicographic order on character sequences
//! that keeps field names sorted.

use vstd::prelude::*;
use vstd::string::StringExecFns;

verus! {

/// The decimal digit character for a value in `0 ..= 9`.
pub open spec fn dec_digit(d: int) -> char {
    if d == 0 {
        '0'
    } else if d == 1 {
        '1'
    } else if d == 2 {
        '2'
    } else if d == 3 {
        '3'
    } else if d == 4 {
        '4'
    } else if d == 5 {
        '5'
    } else if d == 6 {
        '6'
    } else if d == 7 {
        '7'
    } else if d == 8 {
        '8'
    } else {
        '9'
    }
}

/// Decimal rendering of a natural number, most significant digit first,
/// without leading zeros (except for the number zero itself).
pub open spec fn dec_str(n: nat) -> Seq<char>
    decreases n,
{
    if n < 10 {
        seq![dec_digit(n as int)]
    } else {
        dec_str(n / 10) + seq![dec_digit((n % 10) as int)]
    }
}

/// Decimal rendering of a signed number: a `-` sign followed by the
/// magnitude.
pub open spec fn int_str(n: int) -> Seq<char> {
    if n < 0 {
        seq!['-'] + dec_str((-n) as nat)
    } else {
        dec_str(n as nat)
    }
}

pub open spec fn pow10(k: nat) -> nat
    decreases k,
{
    if k == 0 {
        1
    } else {
        10 * pow10((k - 1) as nat)
    }
}

pub proof fn lemma_dec_str_digits(n: nat)
    ensures
        forall|i: int|
            0 <= i < dec_str(n).len() ==> '0' <= (#[trigger] dec_str(n)[i]) && dec_str(n)[i]
                <= '9',
    decreases n,
{
    if n < 10 {
    } else {
        lemma_dec_str_digits(n / 10);
        assert(forall|i: int|
            0 <= i < dec_str(n / 10).len() ==> dec_str(n)[i] == dec_str(n / 10)[i]);
    }
}

/// Strict lexicographic order on character sequences, by code point; this is
/// the order in which field names are kept and emitted.
pub open spec fn lex_lt(a: Seq<char>, b: Seq<char>) -> bool
    decreases a.len(),
{
    if b.len() == 0 {
        false
    } else if a.len() == 0 {
        true
    } else if a[0] < b[0] {
        true
    } else if a[0] > b[0] {
        false
    } else {
        lex_lt(a.drop_first(), b.drop_first())
    }
}

pub proof fn lemma_lex_lt_irrefl(a: Seq<char>)
    ensures
        !lex_lt(a, a),
    decreases a.len(),
{
    if a.len() > 0 {
        lemma_lex_lt_irrefl(a.drop_first());
    }
}

pub proof fn lemma_lex_lt_trans(a: Seq<char>, b: Seq<char>, c: Seq<char>)
    requires
        lex_lt(a, b),
        lex_lt(b, c),
    ensures
        lex_lt(a, c),
    decreases a.len(),
{
    if a.len() == 0 {
    } else {
        if a[0] == b[0] && b[0] == c[0] {
            lemma_lex_lt_trans(a.drop_first(), b.drop_first(), c.drop_first());
        }
    }
}

pub proof fn lemma_lex_lt_asym(a: Seq<char>, b: Seq<char>)
    requires
        lex_lt(a, b),
    ensures
        !lex_lt(b, a),
{
    if lex_lt(b, a) {
        lemma_lex_lt_trans(a, b, a);
        lemma_lex_lt_irrefl(a);
    }
}

/// Two sequences that neither order below the other are equal.
pub proof fn lemma_lex_lt_connex(a: Seq<char>, b: Seq<char>)
    requires
        !lex_lt(a, b),
        !lex_lt(b, a),
    ensures
        a == b,
    decreases a.len(),
{
    if a.len() == 0 || b.len() == 0 {
        assert(a =~= b);
    } else {
        assert(a[0] == b[0]);
        lemma_lex_lt_connex(a.drop_first(), b.drop_first());
        assert(a =~= seq![a[0]] + a.drop_first());
        assert(b =~= seq![b[0]] + b.drop_first());
        assert(a =~= b);
    }
}

/// If `a` and `b` agree on a prefix of length `i` and either `a` ends there
/// or their characters at `i` order `a` first, then `a` orders before `b`.
pub proof fn lemma_lex_lt_first_diff(a: Seq<char>, b: Seq<char>, i: int)
    requires
        0 <= i <= a.len(),
        i <= b.len(),
        forall|j: int| 0 <= j < i ==> a[j] == b[j],
        (i < a.len() && i < b.len() && a[i] < b[i]) || (i == a.len() && i
            < b.len()),
    ensures
        lex_lt(a, b),
    decreases i,
{
    if i == 0 {
    } else {
        lemma_lex_lt_first_diff(a.drop_first(), b.drop_first(), i - 1);
    }
}

/// Three-way outcome of comparing two field names.
pub enum NameOrder {
    Before,
    Same,
    After,
}

/// Compares two strings in the lexicographic order `lex_lt`.
pub fn str_compare(a: &str, b: &str) -> (r: NameOrder)
    ensures
        r is Before ==> lex_lt(a@, b@),
        r is Same ==> a@ == b@,
        r is After ==> lex_lt(b@, a@),
{
    let a_len = a.unicode_len();
    let b_len = b.unicode_len();
    let mut i: usize = 0;
    loop
        invariant
            0 <= i <= a_len,
            i <= b_len,
            a_len == a@.len(),
            b_len == b@.len(),
            forall|j: int| 0 <= j < i ==> a@[j] == b@[j],
        decreases a_len - i,
    {
        if i == a_len {
            if i == b_len {
                proof {
                    assert(a@ =~= b@);
                }
                return NameOrder::Same;
            } else {
                proof {
                    lemma_lex_lt_first_diff(a@, b@, i as int);
                }
                return NameOrder::Before;
            }
        }
        if i == b_len {
            proof {
                lemma_lex_lt_first_diff(b@, a@, i as int);
            }
            return NameOrder::After;
        }
        let ca = a.get_char(i);
        let cb = b.get_char(i);
        if ca < cb {
            proof {
                lemma_lex_lt_first_diff(a@, b@, i as int);
            }
            return NameOrder::Before;
        }
        if ca > cb {
            proof {
                lemma_lex_lt_first_diff(b@, a@, i as int);
            }
            return NameOrder::After;
        }
        i = i + 1;
    }
}

/// Appends the character for one decimal digit.
pub fn append_digit(out: &mut String, d: u64)
    requires
        d < 10,
    ensures
        final(out)@ == old(out)@ + seq![dec_digit(d as int)],
{
    if d == 0 {
        out.append("0");
        proof {
            reveal_strlit("0");
            assert(final(out)@ =~= old(out)@ + seq![dec_digit(d as int)]);
        }
    } else if d == 1 {
        out.append("1");
        proof {
            reveal_strlit("1");
            assert(final(out)@ =~= old(out)@ + seq![dec_digit(d as int)]);
        }
    } else if d == 2 {
        out.append("2");
        proof {
            reveal_strlit("2");
            assert(final(out)@ =~= old(out)@ + seq![dec_digit(d as int)]);
        }
    } else if d == 3 {
        out.append("3");
        proof {
            reveal_strlit("3");
            assert(final(out)@ =~= old(out)@ + seq![dec_digit(d as int)]);
        }
    } else if d == 4 {
        out.append("4");
        proof {
            reveal_strlit("4");
            assert(final(out)@ =~= old(out)@ + seq![dec_digit(d as int)]);
        }
    } else if d == 5 {
        out.append("5");
        proof {
            reveal_strlit("5");
            assert(final(out)@ =~= old(out)@ + seq![dec_digit(d as int)]);
        }
    } else if d == 6 {
        out.append("6");
        proof {
            reveal_strlit("6");
            assert(final(out)@ =~= old(out)@ + seq![dec_digit(d as int)]);
        }
    } else if d == 7 {
        out.append("7");
        proof {
            reveal_strlit("7");
            assert(final(out)@ =~= old(out)@ + seq![dec_digit(d as int)]);
        }
    } else if d == 8 {
        out.append("8");
        proof {
            reveal_strlit("8");
            assert(final(out)@ =~= old(out)@ + seq![dec_digit(d as int)]);
        }
    } else {
        out.append("9");
        proof {
            reveal_strlit("9");
            assert(final(out)@ =~= old(out)@ + seq![dec_digit(d as int)]);
        }
    }
}

/// Appends the decimal rendering of an unsigned number.
pub fn append_dec_u64(out: &mut String, n: u64)
    ensures
        final(out)@ == old(out)@ + dec_str(n as nat),
    decreases n,
{
    if n < 10 {
        append_digit(out, n);
    } else {
        append_dec_u64(out, n / 10);
        append_digit(out, n % 10);
        proof {
            assert(final(out)@ =~= old(out)@ + dec_str(n as nat));
        }
    }
}

/// Appends the decimal rendering of a signed number.
pub fn append_dec_i64(out: &mut String, n: i64)
    ensures
        final(out)@ == old(out)@ + int_str(n as int),
{
    if n >= 0 {
        append_dec_u64(out, n as u64);
    } else {
        out.append("-");
        let wide: i128 = n as i128;
        let mag: u64 = (-wide) as u64;
        assert(mag as int == -(n as int));
        append_dec_u64(out, mag);
        proof {
            reveal_strlit("-");
            assert("-"@ =~= seq!['-']);
            assert(final(out)@ =~= old(out)@ + int_str(n as int));
        }
    }
}

} // verus!
