//! Laws of the record format and of the scope machinery, stated over the
//! same spec functions the adapter's contracts use.

use vstd::prelude::*;

use crate::compat_layer::spec_elapsed_ns;
use crate::grammar::{is_json_object_text, lemma_record_is_valid_json};
use crate::fields::{is_reserved_name, kv_get, kv_insert, kv_sorted, kv_values_wf, kv_without,
    lemma_kv_get_skip, lemma_kv_insert_get, lemma_kv_insert_sorted, spec_record, stored_name};
use crate::json::{escape_char, event_entries, hex_digit, json_escape, render_entries,
    render_entry, render_record, render_value};
use crate::json::span_entries;
use crate::scope::{chain_fields, id_referenced, lemma_chain_fields_push, lemma_sid_get_index,
    nearest_lookup, scope_fields, store_has, store_wf, lemma_store_wf_get, CallsiteMeta,
    ScopeData, scope_chain, scope_name, sid_get, SpanLifecycle};
use crate::text::{dec_str, lemma_dec_str_digits, lemma_lex_lt_irrefl, lex_lt};
use crate::value::{is_json_number, lemma_json_number_chars, value_wf, JsonData};

verus! {

proof fn lemma_escape_char_no_newline(c: char)
    ensures
        forall|i: int|
            0 <= i < escape_char(c).len() ==> (#[trigger] escape_char(c)[i]) != '\n',
{
    if c == '"' || c == '\\' || c == '\u{8}' || c == '\t' || c == '\n' || c == '\u{c}' || c
        == '\r' {
    } else if (c as u32) < 0x20 {
        assert(hex_digit(((c as u32) / 16) as int) != '\n');
        assert(hex_digit(((c as u32) % 16) as int) != '\n');
    } else {
    }
}

proof fn lemma_json_escape_no_newline(s: Seq<char>)
    ensures
        forall|i: int| 0 <= i < json_escape(s).len() ==> (#[trigger] json_escape(s)[i]) != '\n',
    decreases s.len(),
{
    if s.len() == 0 {
    } else {
        lemma_escape_char_no_newline(s[0]);
        lemma_json_escape_no_newline(s.drop_first());
        assert forall|i: int|
            0 <= i < json_escape(s).len() implies (#[trigger] json_escape(s)[i]) != '\n' by {
            let a = escape_char(s[0]);
            let b = json_escape(s.drop_first());
            if i < a.len() {
                assert(json_escape(s)[i] == a[i]);
            } else {
                assert(json_escape(s)[i] == b[i - a.len()]);
            }
        }
    }
}

proof fn lemma_dec_str_no_newline(n: nat)
    ensures
        forall|i: int| 0 <= i < dec_str(n).len() ==> (#[trigger] dec_str(n)[i]) != '\n',
{
    lemma_dec_str_digits(n);
}

proof fn lemma_render_value_no_newline(v: JsonData)
    ensures
        value_wf(v) ==> forall|i: int|
            0 <= i < render_value(v).len() ==> (#[trigger] render_value(v)[i]) != '\n',
{
    match v {
        JsonData::Null => {
            reveal_strlit("null");
            assert(forall|i: int|
                0 <= i < "null"@.len() ==> (#[trigger] "null"@[i]) != '\n');
        },
        JsonData::Bool(b) => {
            reveal_strlit("true");
            reveal_strlit("false");
            assert(forall|i: int|
                0 <= i < "true"@.len() ==> (#[trigger] "true"@[i]) != '\n');
            assert(forall|i: int|
                0 <= i < "false"@.len() ==> (#[trigger] "false"@[i]) != '\n');
        },
        JsonData::I64(n) => {
            lemma_dec_str_no_newline(if n < 0 {
                (-(n as int)) as nat
            } else {
                n as nat
            });
        },
        JsonData::U64(n) => {
            lemma_dec_str_no_newline(n as nat);
        },
        JsonData::Str(s) => {
            lemma_json_escape_no_newline(s);
        },
        JsonData::Num(s) => {
            if is_json_number(s) {
                lemma_json_number_chars(s);
            }
        },
    }
}

proof fn lemma_render_entry_no_newline(e: (Seq<char>, JsonData))
    requires
        value_wf(e.1),
    ensures
        forall|i: int|
            0 <= i < render_entry(e).len() ==> (#[trigger] render_entry(e)[i]) != '\n',
{
    lemma_json_escape_no_newline(e.0);
    lemma_render_value_no_newline(e.1);
}

proof fn lemma_render_entries_no_newline(s: Seq<(Seq<char>, JsonData)>)
    requires
        kv_values_wf(s),
    ensures
        forall|i: int|
            0 <= i < render_entries(s).len() ==> (#[trigger] render_entries(s)[i]) != '\n',
    decreases s.len(),
{
    if s.len() == 0 {
    } else if s.len() == 1 {
        assert(value_wf(s[0].1));
        lemma_render_entry_no_newline(s[0]);
    } else {
        assert(value_wf(s[0].1));
        lemma_render_entry_no_newline(s[0]);
        assert(kv_values_wf(s.drop_first())) by {
            assert(forall|i: int|
                0 <= i < s.drop_first().len() ==> (#[trigger] s.drop_first()[i]) == s[i + 1]);
        }
        lemma_render_entries_no_newline(s.drop_first());
        assert forall|i: int|
            0 <= i < render_entries(s).len() implies (#[trigger] render_entries(s)[i])
            != '\n' by {
            let a = render_entry(s[0]);
            let b = render_entries(s.drop_first());
            if i < a.len() {
                assert(render_entries(s)[i] == a[i]);
            } else if i == a.len() {
                assert(render_entries(s)[i] == ',');
            } else {
                assert(render_entries(s)[i] == b[i - a.len() - 1]);
            }
        }
    }
}

/// Every record the formatter produces is exactly one line holding one
/// syntactically valid JSON object: it opens with a brace, the line
/// separator that terminates it is the only one it holds, and the text
/// before that separator satisfies the JSON object grammar.
pub proof fn lemma_record_is_one_line(s: Seq<(Seq<char>, JsonData)>)
    requires
        kv_values_wf(s),
    ensures
        render_record(s).len() >= 3,
        render_record(s)[0] == '{',
        render_record(s)[render_record(s).len() - 2] == '}',
        render_record(s)[render_record(s).len() - 1] == '\n',
        forall|i: int|
            0 <= i < render_record(s).len() - 1 ==> (#[trigger] render_record(s)[i]) != '\n',
        is_json_object_text(render_record(s).drop_last()),
{
    lemma_render_entries_no_newline(s);
    lemma_record_is_valid_json(s);
}

/// A field recorded on any scope of an ancestor chain appears among the
/// chain's merged members.
pub proof fn lemma_chain_fields_contains(
    store: Seq<(u64, ScopeData)>,
    chain: Seq<u64>,
    j: int,
    e: (Seq<char>, JsonData),
)
    requires
        0 <= j < chain.len(),
        scope_fields(store, chain[j]).contains(e),
    ensures
        chain_fields(store, chain).contains(e),
    decreases chain.len(),
{
    if j == 0 {
        let i = choose|i: int|
            0 <= i < scope_fields(store, chain[0]).len() && scope_fields(store, chain[0])[i] == e;
        assert(chain_fields(store, chain)[i] == e);
    } else {
        assert(chain.drop_first()[j - 1] == chain[j]);
        lemma_chain_fields_contains(store, chain.drop_first(), j - 1, e);
        let i = choose|i: int|
            0 <= i < chain_fields(store, chain.drop_first()).len() && chain_fields(
                store,
                chain.drop_first(),
            )[i] == e;
        assert(chain_fields(store, chain)[scope_fields(store, chain[0]).len() + i] == e);
    }
}

/// An event logged inside a nested scope carries every field of every
/// enclosing scope: a member recorded on any scope of the resolved scope's
/// ancestor chain stands in the event's record.
pub proof fn lemma_event_record_inherits_field(
    store: Seq<(u64, ScopeData)>,
    pid: u32,
    meta: CallsiteMeta,
    fields: Seq<(Seq<char>, JsonData)>,
    sid: u64,
    j: int,
    e: (Seq<char>, JsonData),
)
    requires
        store_has(store, sid),
        0 <= j < scope_chain(store, sid).len(),
        scope_fields(store, scope_chain(store, sid)[j]).contains(e),
    ensures
        event_entries(store, pid, meta, fields, Some(sid)).contains(e),
{
    lemma_chain_fields_contains(store, scope_chain(store, sid), j, e);
    let cf = chain_fields(store, scope_chain(store, sid));
    let i = choose|i: int| 0 <= i < cf.len() && cf[i] == e;
    let whole = event_entries(store, pid, meta, fields, Some(sid));
    assert(whole[3 + 1 + 4 + i] == e);
}

/// Within one scope the last write wins: recording a name twice leaves
/// the later value under that name, and every other name untouched.
pub proof fn lemma_record_last_write_wins(
    m: Seq<(Seq<char>, JsonData)>,
    name: Seq<char>,
    v1: JsonData,
    v2: JsonData,
    q: Seq<char>,
)
    requires
        kv_sorted(m),
        !is_reserved_name(name),
    ensures
        kv_get(spec_record(spec_record(m, name, v1), name, v2), q) == if q == stored_name(name) {
            Some(v2)
        } else {
            kv_get(m, q)
        },
{
    let k = stored_name(name);
    lemma_kv_insert_sorted(m, k, v1);
    lemma_kv_insert_get(m, k, v1, q);
    lemma_kv_insert_get(kv_insert(m, k, v1), k, v2, q);
}

/// The value stored under `k` by the member written last, scanning a
/// member list from its end (what a reader folding duplicate keys with
/// last-key-wins semantics is left with).
pub open spec fn kv_last(m: Seq<(Seq<char>, JsonData)>, k: Seq<char>) -> Option<JsonData>
    decreases m.len(),
{
    if m.len() == 0 {
        None
    } else if m.last().0 == k {
        Some(m.last().1)
    } else {
        kv_last(m.drop_last(), k)
    }
}

proof fn lemma_kv_last_concat(
    a: Seq<(Seq<char>, JsonData)>,
    b: Seq<(Seq<char>, JsonData)>,
    k: Seq<char>,
)
    ensures
        kv_last(a + b, k) == if kv_last(b, k) is Some {
            kv_last(b, k)
        } else {
            kv_last(a, k)
        },
    decreases b.len(),
{
    if b.len() == 0 {
        assert(a + b =~= a);
    } else {
        assert((a + b).last() == b.last());
        assert((a + b).drop_last() =~= a + b.drop_last());
        lemma_kv_last_concat(a, b.drop_last(), k);
    }
}

proof fn lemma_kv_get_drop_last(m: Seq<(Seq<char>, JsonData)>, k: Seq<char>)
    requires
        m.len() >= 1,
        m.last().0 != k,
    ensures
        kv_get(m, k) == kv_get(m.drop_last(), k),
    decreases m.len(),
{
    if m.len() == 1 {
        assert(m.drop_last() =~= Seq::<(Seq<char>, JsonData)>::empty());
    } else {
        assert(m.drop_last()[0] == m[0]);
        if m[0].0 == k {
        } else {
            assert(m.drop_first().last() == m.last());
            assert(m.drop_first().drop_last() =~= m.drop_last().drop_first());
            lemma_kv_get_drop_last(m.drop_first(), k);
        }
    }
}

proof fn lemma_kv_last_eq_get_sorted(m: Seq<(Seq<char>, JsonData)>, k: Seq<char>)
    requires
        kv_sorted(m),
    ensures
        kv_last(m, k) == kv_get(m, k),
    decreases m.len(),
{
    if m.len() == 0 {
    } else if m.last().0 == k {
        assert forall|j: int| 0 <= j < m.len() - 1 implies (#[trigger] m[j].0) != k by {
            assert(lex_lt(m[j].0, m.last().0));
            lemma_lex_lt_irrefl(k);
            if m[j].0 == k {
                assert(lex_lt(k, k));
            }
        }
        lemma_kv_get_skip(m, k, m.len() - 1);
        assert(m.skip(m.len() - 1)[0] == m.last());
    } else {
        assert(kv_sorted(m.drop_last())) by {
            assert(forall|i: int|
                0 <= i < m.drop_last().len() ==> (#[trigger] m.drop_last()[i]) == m[i]);
        }
        lemma_kv_last_eq_get_sorted(m.drop_last(), k);
        lemma_kv_get_drop_last(m, k);
    }
}

/// Shadowing agrees with the cross-context accessor: merging the ancestor
/// chain's fields root first with last-key-wins semantics exposes, for
/// every name, exactly the value that the nearest-first lookup returns.
/// In particular a name recorded on both an outer and a nested scope
/// resolves to the nested scope's value.
pub proof fn lemma_merged_chain_exposes_nearest(
    store: Seq<(u64, ScopeData)>,
    chain: Seq<u64>,
    key: Seq<char>,
)
    requires
        store_wf(store),
        forall|t: int| 0 <= t < chain.len() ==> store_has(store, #[trigger] chain[t]),
    ensures
        kv_last(chain_fields(store, chain), key) == nearest_lookup(store, chain, key),
    decreases chain.len(),
{
    if chain.len() == 0 {
    } else {
        let c0 = chain.drop_last();
        let lid = chain.last();
        assert(chain =~= c0.push(lid));
        lemma_chain_fields_push(store, c0, lid);
        assert forall|t: int| 0 <= t < c0.len() implies store_has(store, #[trigger] c0[t]) by {
            assert(c0[t] == chain[t]);
        }
        lemma_merged_chain_exposes_nearest(store, c0, key);
        lemma_kv_last_concat(chain_fields(store, c0), scope_fields(store, lid), key);
        lemma_store_wf_get(store, lid);
        lemma_kv_last_eq_get_sorted(scope_fields(store, lid), key);
    }
}

/// A scope is unreferenced when no other stored scope's chain contains it;
/// this lets a caller discharge a close's precondition from lookups alone.
pub proof fn lemma_id_not_referenced(s: Seq<(u64, ScopeData)>, id: u64)
    requires
        forall|p: int, r: int|
            0 <= p < r < s.len() ==> (#[trigger] s[p].0) != (#[trigger] s[r].0),
        forall|q: u64|
            q != id && sid_get(s, q) is Some ==> !(#[trigger] sid_get(
                s,
                q,
            )).unwrap().chain@.contains(id),
    ensures
        !id_referenced(s, id),
{
    if id_referenced(s, id) {
        let x = choose|x: int|
            0 <= x < s.len() && s[x].0 != id && (#[trigger] s[x].1).chain@.contains(id);
        lemma_sid_get_index(s, x);
        assert(sid_get(s, s[x].0) == Some(s[x].1));
        assert(!s[x].1.chain@.contains(id));
    }
}

/// The timer slot after a sequence of enter callbacks, each attaching the
/// timestamp only if the slot is still empty (the transition `on_enter`'s
/// contract takes for the slot).
pub open spec fn timer_after_enters(times: Seq<u64>) -> Option<u64>
    decreases times.len(),
{
    if times.len() == 0 {
        None
    } else {
        let prev = timer_after_enters(times.drop_last());
        if prev is None {
            Some(times.last())
        } else {
            prev
        }
    }
}

proof fn lemma_values_wf_concat(a: Seq<(Seq<char>, JsonData)>, b: Seq<(Seq<char>, JsonData)>)
    requires
        kv_values_wf(a),
        kv_values_wf(b),
    ensures
        kv_values_wf(a + b),
{
    assert forall|i: int| 0 <= i < (a + b).len() implies value_wf(#[trigger] (a + b)[i].1) by {
        if i < a.len() {
            assert((a + b)[i] == a[i]);
        } else {
            assert((a + b)[i] == b[i - a.len()]);
        }
    }
}

proof fn lemma_chain_fields_values_wf(store: Seq<(u64, ScopeData)>, chain: Seq<u64>)
    requires
        store_wf(store),
    ensures
        kv_values_wf(chain_fields(store, chain)),
    decreases chain.len(),
{
    if chain.len() == 0 {
    } else {
        assert(kv_values_wf(scope_fields(store, chain[0]))) by {
            if sid_get(store, chain[0]) is Some {
                lemma_store_wf_get(store, chain[0]);
            }
        }
        lemma_chain_fields_values_wf(store, chain.drop_first());
        lemma_values_wf_concat(
            scope_fields(store, chain[0]),
            chain_fields(store, chain.drop_first()),
        );
    }
}

/// Every scope-lifecycle record a well-formed adapter emits is exactly one
/// line of text: a syntactically valid JSON object ending in the only line
/// separator the record holds.
pub proof fn lemma_span_record_is_one_line(
    store: Seq<(u64, ScopeData)>,
    pid: u32,
    id: u64,
    lifecycle: SpanLifecycle,
    elapsed: Option<Seq<char>>,
)
    requires
        store_wf(store),
    ensures
        ({
            let r = render_record(span_entries(store, pid, id, lifecycle, elapsed));
            &&& r[0] == '{'
            &&& r[r.len() - 1] == '\n'
            &&& forall|i: int| 0 <= i < r.len() - 1 ==> (#[trigger] r[i]) != '\n'
            &&& is_json_object_text(r.drop_last())
        }),
{
    let s = span_entries(store, pid, id, lifecycle, elapsed);
    assert(kv_values_wf(s)) by {
        match sid_get(store, id) {
            Some(d) => {
                lemma_chain_fields_values_wf(store, d.chain@);
                assert forall|i: int| 0 <= i < s.len() implies value_wf(#[trigger] s[i].1) by {
                    let cf = chain_fields(store, d.chain@);
                    if i < 7 {
                    } else if i < 7 + cf.len() {
                        assert(s[i].1 == cf[i - 7].1);
                    } else {
                    }
                }
            },
            None => {},
        }
    }
    lemma_record_is_one_line(s);
}

/// Every event record a well-formed adapter emits is exactly one line of
/// text: a syntactically valid JSON object ending in the only line
/// separator the record holds.
pub proof fn lemma_event_record_is_one_line(
    store: Seq<(u64, ScopeData)>,
    pid: u32,
    meta: CallsiteMeta,
    fields: Seq<(Seq<char>, JsonData)>,
    scope: Option<u64>,
)
    requires
        store_wf(store),
        kv_values_wf(fields),
    ensures
        ({
            let r = render_record(event_entries(store, pid, meta, fields, scope));
            &&& r[0] == '{'
            &&& r[r.len() - 1] == '\n'
            &&& forall|i: int| 0 <= i < r.len() - 1 ==> (#[trigger] r[i]) != '\n'
            &&& is_json_object_text(r.drop_last())
        }),
{
    let s = event_entries(store, pid, meta, fields, scope);
    let own = kv_without(fields, "message"@);
    assert(kv_values_wf(own)) by {
        lemma_kv_without_values_wf(fields, "message"@);
    }
    let parent_part: Seq<(Seq<char>, JsonData)> = match scope {
        Some(sid) => seq![("parent"@, JsonData::Str(scope_name(store, sid)))],
        None => Seq::empty(),
    };
    let chain_part: Seq<(Seq<char>, JsonData)> = match scope {
        Some(sid) => chain_fields(store, scope_chain(store, sid)),
        None => Seq::empty(),
    };
    assert(kv_values_wf(chain_part)) by {
        match scope {
            Some(sid) => {
                lemma_chain_fields_values_wf(store, scope_chain(store, sid));
            },
            None => {},
        }
    }
    assert forall|i: int| 0 <= i < s.len() implies value_wf(#[trigger] s[i].1) by {
        if i < 3 {
        } else if i < 3 + parent_part.len() {
            assert(s[i].1 == parent_part[i - 3].1);
        } else if i < 3 + parent_part.len() + 4 {
        } else if i < 3 + parent_part.len() + 4 + chain_part.len() {
            assert(s[i].1 == chain_part[i - 3 - parent_part.len() - 4].1);
        } else {
            assert(s[i].1 == own[i - 3 - parent_part.len() - 4 - chain_part.len()].1);
        }
    }
    lemma_record_is_one_line(s);
}

proof fn lemma_kv_without_values_wf(m: Seq<(Seq<char>, JsonData)>, k: Seq<char>)
    requires
        kv_values_wf(m),
    ensures
        kv_values_wf(kv_without(m, k)),
    decreases m.len(),
{
    if m.len() == 0 {
    } else {
        assert(kv_values_wf(m.drop_first())) by {
            assert(forall|i: int|
                0 <= i < m.drop_first().len() ==> (#[trigger] m.drop_first()[i]) == m[i + 1]);
        }
        lemma_kv_without_values_wf(m.drop_first(), k);
        if m[0].0 == k {
        } else {
            let r = kv_without(m, k);
            let sub = kv_without(m.drop_first(), k);
            assert forall|i: int| 0 <= i < r.len() implies value_wf(#[trigger] r[i].1) by {
                if i == 0 {
                    assert(r[0] == m[0]);
                } else {
                    assert(r[i] == sub[i - 1]);
                }
            }
        }
    }
}

/// However many times a scope is entered and resumed, the timer holds the
/// first entry's timestamp, and the elapsed time read at close is measured
/// from that first entry.
pub proof fn lemma_timer_first_entry_wins(times: Seq<u64>, close: u64)
    requires
        times.len() >= 1,
    ensures
        timer_after_enters(times) == Some(times[0]),
        spec_elapsed_ns(timer_after_enters(times).unwrap(), close) == spec_elapsed_ns(
            times[0],
            close,
        ),
    decreases times.len(),
{
    if times.len() == 1 {
    } else {
        lemma_timer_first_entry_wins(times.drop_last(), close);
        assert(times.drop_last()[0] == times[0]);
    }
}

} // verus!
