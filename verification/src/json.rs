//! Rendering of one output record as a line of JSON text: string escaping,
//! value rendering, and the comma-separated object form.

use vstd::prelude::*;
use vstd::string::StrSliceExecFns;
use vstd::string::StringExecFns;

use crate::fields::{kv_get, kv_without, lemma_kv_without_push};
use crate::scope::{chain_fields, lemma_chain_fields_push, lemma_store_wf_get, scope_chain,
    scope_fields, scope_name, sid_get, store_find, store_has, store_wf, CallsiteMeta, EventData,
    ScopeData, SpanLifecycle, StaticMetadata};
use crate::text::{append_dec_i64, append_dec_u64, append_digit, dec_digit, dec_str, int_str,
    lemma_lex_lt_irrefl, str_compare, NameOrder};
use crate::value::{FieldValue, JsonData};

verus! {

/// The hexadecimal digit character for a value in `0 ..= 15` (lower case).
pub open spec fn hex_digit(d: int) -> char {
    if d < 10 {
        dec_digit(d)
    } else if d == 10 {
        'a'
    } else if d == 11 {
        'b'
    } else if d == 12 {
        'c'
    } else if d == 13 {
        'd'
    } else if d == 14 {
        'e'
    } else {
        'f'
    }
}

/// JSON escaping of one character: quote and backslash are escaped, control
/// characters take their short escape or the `\u00..` form, anything else
/// stands for itself.
pub open spec fn escape_char(c: char) -> Seq<char> {
    if c == '"' {
        seq!['\\', '"']
    } else if c == '\\' {
        seq!['\\', '\\']
    } else if c == '\u{8}' {
        seq!['\\', 'b']
    } else if c == '\t' {
        seq!['\\', 't']
    } else if c == '\n' {
        seq!['\\', 'n']
    } else if c == '\u{c}' {
        seq!['\\', 'f']
    } else if c == '\r' {
        seq!['\\', 'r']
    } else if (c as u32) < 0x20 {
        seq!['\\', 'u', '0', '0', hex_digit((c as u32 / 16) as int), hex_digit((c as u32 % 16) as int)]
    } else {
        seq![c]
    }
}

/// JSON escaping of a whole string body.
pub open spec fn json_escape(s: Seq<char>) -> Seq<char>
    decreases s.len(),
{
    if s.len() == 0 {
        Seq::empty()
    } else {
        escape_char(s[0]) + json_escape(s.drop_first())
    }
}

pub proof fn lemma_json_escape_push(s: Seq<char>, c: char)
    ensures
        json_escape(s.push(c)) == json_escape(s) + escape_char(c),
    decreases s.len(),
{
    if s.len() == 0 {
        assert(s.push(c)[0] == c);
        assert(s.push(c).drop_first() =~= Seq::<char>::empty());
        assert(json_escape(s.push(c)) == escape_char(c) + json_escape(Seq::<char>::empty()));
        assert(json_escape(s.push(c)) =~= json_escape(s) + escape_char(c));
    } else {
        assert(s.push(c)[0] == s[0]);
        assert(s.push(c).drop_first() =~= s.drop_first().push(c));
        lemma_json_escape_push(s.drop_first(), c);
        assert(json_escape(s.push(c)) =~= json_escape(s) + escape_char(c));
    }
}

/// Rendering of one JSON value.
pub open spec fn render_value(v: JsonData) -> Seq<char> {
    match v {
        JsonData::Null => "null"@,
        JsonData::Bool(b) => if b {
            "true"@
        } else {
            "false"@
        },
        JsonData::I64(n) => int_str(n as int),
        JsonData::U64(n) => dec_str(n as nat),
        JsonData::Str(s) => seq!['"'] + json_escape(s) + seq!['"'],
        JsonData::Num(s) => s,
    }
}

/// Rendering of one `"name":value` member.
pub open spec fn render_entry(e: (Seq<char>, JsonData)) -> Seq<char> {
    seq!['"'] + json_escape(e.0) + seq!['"', ':'] + render_value(e.1)
}

/// Rendering of the members of an object, comma separated.
pub open spec fn render_entries(s: Seq<(Seq<char>, JsonData)>) -> Seq<char>
    decreases s.len(),
{
    if s.len() == 0 {
        Seq::empty()
    } else if s.len() == 1 {
        render_entry(s[0])
    } else {
        render_entry(s[0]) + seq![','] + render_entries(s.drop_first())
    }
}

pub proof fn lemma_render_entries_push(s: Seq<(Seq<char>, JsonData)>, e: (Seq<char>, JsonData))
    ensures
        render_entries(s.push(e)) == if s.len() == 0 {
            render_entry(e)
        } else {
            render_entries(s) + seq![','] + render_entry(e)
        },
    decreases s.len(),
{
    if s.len() == 0 {
        assert(s.push(e)[0] == e);
    } else {
        assert(s.push(e).drop_first() =~= s.drop_first().push(e));
        lemma_render_entries_push(s.drop_first(), e);
        if s.len() == 1 {
            assert(render_entries(s.push(e)) =~= render_entries(s) + seq![','] + render_entry(e));
        } else {
            assert(render_entries(s.push(e)) =~= render_entries(s) + seq![','] + render_entry(e));
        }
    }
}

/// One whole output record: a JSON object followed by the line separator.
pub open spec fn render_record(s: Seq<(Seq<char>, JsonData)>) -> Seq<char> {
    seq!['{'] + render_entries(s) + seq!['}', '\n']
}

/// Appends the character for one hexadecimal digit.
fn append_hex_digit(out: &mut String, d: u32)
    requires
        d < 16,
    ensures
        final(out)@ == old(out)@ + seq![hex_digit(d as int)],
{
    if d < 10 {
        append_digit(out, d as u64);
    } else if d == 10 {
        out.append("a");
        proof {
            reveal_strlit("a");
            assert(final(out)@ =~= old(out)@ + seq![hex_digit(d as int)]);
        }
    } else if d == 11 {
        out.append("b");
        proof {
            reveal_strlit("b");
            assert(final(out)@ =~= old(out)@ + seq![hex_digit(d as int)]);
        }
    } else if d == 12 {
        out.append("c");
        proof {
            reveal_strlit("c");
            assert(final(out)@ =~= old(out)@ + seq![hex_digit(d as int)]);
        }
    } else if d == 13 {
        out.append("d");
        proof {
            reveal_strlit("d");
            assert(final(out)@ =~= old(out)@ + seq![hex_digit(d as int)]);
        }
    } else if d == 14 {
        out.append("e");
        proof {
            reveal_strlit("e");
            assert(final(out)@ =~= old(out)@ + seq![hex_digit(d as int)]);
        }
    } else {
        out.append("f");
        proof {
            reveal_strlit("f");
            assert(final(out)@ =~= old(out)@ + seq![hex_digit(d as int)]);
        }
    }
}

/// Appends the JSON escaping of `s`.
fn append_escaped(out: &mut String, s: &str)
    ensures
        final(out)@ == old(out)@ + json_escape(s@),
{
    let len = s.unicode_len();
    let mut i: usize = 0;
    loop
        invariant
            0 <= i <= len,
            len == s@.len(),
            out@ == old(out)@ + json_escape(s@.take(i as int)),
        decreases len - i,
    {
        if i == len {
            proof {
                assert(s@.take(len as int) =~= s@);
            }
            return ;
        }
        let ghost prefix = s@.take(i as int);
        let c = s.get_char(i);
        let u = c as u32;
        if c == '"' {
            out.append("\\\"");
            proof {
                reveal_strlit("\\\"");
                assert("\\\""@ =~= escape_char(c));
            }
        } else if c == '\\' {
            out.append("\\\\");
            proof {
                reveal_strlit("\\\\");
                assert("\\\\"@ =~= escape_char(c));
            }
        } else if u == 8 {
            out.append("\\b");
            proof {
                reveal_strlit("\\b");
                assert("\\b"@ =~= escape_char(c));
            }
        } else if u == 9 {
            out.append("\\t");
            proof {
                reveal_strlit("\\t");
                assert("\\t"@ =~= escape_char(c));
            }
        } else if u == 10 {
            out.append("\\n");
            proof {
                reveal_strlit("\\n");
                assert("\\n"@ =~= escape_char(c));
            }
        } else if u == 12 {
            out.append("\\f");
            proof {
                reveal_strlit("\\f");
                assert("\\f"@ =~= escape_char(c));
            }
        } else if u == 13 {
            out.append("\\r");
            proof {
                reveal_strlit("\\r");
                assert("\\r"@ =~= escape_char(c));
            }
        } else if u < 32 {
            out.append("\\u00");
            append_hex_digit(out, u / 16);
            append_hex_digit(out, u % 16);
            proof {
                reveal_strlit("\\u00");
                assert("\\u00"@ + seq![hex_digit((u / 16) as int)] + seq![hex_digit((u % 16) as int)]
                    =~= escape_char(c));
            }
        } else {
            let piece = s.substring_char(i, i + 1);
            out.append(piece);
            proof {
                assert(piece@ =~= seq![c]);
                assert(piece@ =~= escape_char(c));
            }
        }
        i = i + 1;
        proof {
            lemma_json_escape_push(prefix, c);
            assert(s@.take(i as int) =~= prefix.push(c));
            assert(out@ =~= old(out)@ + json_escape(s@.take(i as int)));
        }
    }
}

/// Appends the rendering of one value.
fn append_value(out: &mut String, v: &FieldValue)
    ensures
        final(out)@ == old(out)@ + render_value(v@),
{
    match v {
        FieldValue::Null => {
            out.append("null");
        },
        FieldValue::Bool(b) => {
            if *b {
                out.append("true");
            } else {
                out.append("false");
            }
        },
        FieldValue::I64(n) => {
            append_dec_i64(out, *n);
        },
        FieldValue::U64(n) => {
            append_dec_u64(out, *n);
        },
        FieldValue::Str(s) => {
            out.append("\"");
            append_escaped(out, s.as_str());
            out.append("\"");
            proof {
                reveal_strlit("\"");
                assert("\""@ =~= seq!['"']);
                assert(final(out)@ =~= old(out)@ + render_value(v@));
            }
        },
        FieldValue::Num(s) => {
            out.append(s.as_str());
        },
    }
}

/// Appends one `"name":value` member.
fn append_member(out: &mut String, name: &str, v: &FieldValue)
    ensures
        final(out)@ == old(out)@ + render_entry((name@, v@)),
{
    out.append("\"");
    append_escaped(out, name);
    out.append("\":");
    append_value(out, v);
    proof {
        reveal_strlit("\"");
        reveal_strlit("\":");
        assert("\""@ =~= seq!['"']);
        assert("\":"@ =~= seq!['"', ':']);
        assert(final(out)@ =~= old(out)@ + render_entry((name@, v@)));
    }
}

/// Renders a whole record: the members in order, as one JSON object, ended
/// by the line separator.
pub fn render_record_line(entries: &Vec<(String, FieldValue)>) -> (r: String)
    ensures
        r@ == render_record(entries@.map_values(|e: (String, FieldValue)| (e.0@, e.1@))),
{
    let ghost view = entries@.map_values(|e: (String, FieldValue)| (e.0@, e.1@));
    let mut out = String::new();
    out.append("{");
    proof {
        reveal_strlit("{");
        assert(out@ =~= seq!['{'] + render_entries(view.take(0)));
    }
    let len = entries.len();
    let mut i: usize = 0;
    while i < len
        invariant
            0 <= i <= len,
            len == entries@.len(),
            view == entries@.map_values(|e: (String, FieldValue)| (e.0@, e.1@)),
            out@ == seq!['{'] + render_entries(view.take(i as int)),
        decreases len - i,
    {
        if i > 0 {
            out.append(",");
            proof {
                reveal_strlit(",");
            }
        }
        append_member(&mut out, entries[i].0.as_str(), &entries[i].1);
        proof {
            lemma_render_entries_push(view.take(i as int), view[i as int]);
            assert(view.take(i as int + 1) =~= view.take(i as int).push(view[i as int]));
            assert(out@ =~= seq!['{'] + render_entries(view.take(i as int + 1)));
        }
        i = i + 1;
    }
    out.append("}\n");
    proof {
        reveal_strlit("}\n");
        assert(view.take(len as int) =~= view);
        assert(out@ =~= render_record(view));
    }
    out
}

/// Streams one record's members into a line of JSON, keeping the sequence
/// of members written so far as its model.
struct RecordBuilder {
    out: String,
    first: bool,
    entries: Ghost<Seq<(Seq<char>, JsonData)>>,
}

impl RecordBuilder {
    spec fn wf(&self) -> bool {
        &&& self.out@ == seq!['{'] + render_entries(self.entries@)
        &&& self.first == (self.entries@.len() == 0)
    }

    fn new() -> (r: RecordBuilder)
        ensures
            r.wf(),
            r.entries@ == Seq::<(Seq<char>, JsonData)>::empty(),
    {
        let mut out = String::new();
        out.append("{");
        let r = RecordBuilder { out, first: true, entries: Ghost(Seq::empty()) };
        proof {
            reveal_strlit("{");
            assert(r.out@ =~= seq!['{'] + render_entries(r.entries@));
        }
        r
    }

    fn add(&mut self, name: &str, v: &FieldValue)
        requires
            old(self).wf(),
        ensures
            final(self).wf(),
            final(self).entries@ == old(self).entries@.push((name@, v@)),
    {
        let ghost prev = self.entries@;
        if self.first {
            self.first = false;
        } else {
            self.out.append(",");
        }
        append_member(&mut self.out, name, v);
        self.entries = Ghost(prev.push((name@, v@)));
        proof {
            reveal_strlit(",");
            lemma_render_entries_push(prev, (name@, v@));
            assert(self.out@ =~= seq!['{'] + render_entries(self.entries@));
        }
    }

    fn finish(self) -> (r: String)
        requires
            self.wf(),
        ensures
            r@ == render_record(self.entries@),
    {
        let RecordBuilder { out, first, entries } = self;
        let mut line = out;
        line.append("}\n");
        proof {
            reveal_strlit("}\n");
            assert(line@ =~= render_record(entries@));
        }
        line
    }
}

/// The JSON value of an optional source path.
pub open spec fn opt_str_value(o: Option<String>) -> JsonData {
    match o {
        Some(s) => JsonData::Str(s@),
        None => JsonData::Null,
    }
}

/// The JSON value of an optional source line.
pub open spec fn opt_line_value(o: Option<u32>) -> JsonData {
    match o {
        Some(n) => JsonData::U64(n as u64),
        None => JsonData::Null,
    }
}

/// The four source-location members shared by every record.
pub open spec fn callsite_entries(meta: CallsiteMeta, pid: u32) -> Seq<(Seq<char>, JsonData)> {
    seq![
        ("source.filename"@, opt_str_value(meta.file)),
        ("source.line"@, opt_line_value(meta.line)),
        ("source.target"@, JsonData::Str(meta.target@)),
        ("source.pid"@, JsonData::Str(dec_str(pid as nat))),
    ]
}

/// The members of a scope-lifecycle record: severity, the scope's name as
/// title, the transition marker, the source location, then the fields of
/// every scope on the ancestor chain root first, then (on close) the
/// elapsed time.
pub open spec fn span_entries(
    store: Seq<(u64, ScopeData)>,
    pid: u32,
    id: u64,
    lifecycle: SpanLifecycle,
    elapsed: Option<Seq<char>>,
) -> Seq<(Seq<char>, JsonData)> {
    match sid_get(store, id) {
        Some(d) => seq![
            ("level"@, JsonData::Str(d.meta.level.spec_str())),
            ("title"@, JsonData::Str(d.meta.name@)),
            ("type"@, JsonData::Str(lifecycle.spec_str())),
        ] + callsite_entries(d.meta, pid) + chain_fields(store, d.chain@) + (match elapsed {
            Some(e) => seq![("elapsed"@, JsonData::Str(e))],
            None => Seq::<(Seq<char>, JsonData)>::empty(),
        }),
        None => Seq::empty(),
    }
}

/// The record title of an event: its `message` field when recorded as
/// text, else the callsite's static name.
pub open spec fn event_title(fields: Seq<(Seq<char>, JsonData)>, name: Seq<char>) -> Seq<char> {
    match kv_get(fields, "message"@) {
        Some(JsonData::Str(m)) => m,
        _ => name,
    }
}

/// The members of an event record: severity, title, the `event` marker, a
/// reference to the nearest enclosing scope when there is one, the source
/// location, the ancestor chain's fields root first, then the event's own
/// fields except the `message` consumed as the title.
pub open spec fn event_entries(
    store: Seq<(u64, ScopeData)>,
    pid: u32,
    meta: CallsiteMeta,
    fields: Seq<(Seq<char>, JsonData)>,
    scope: Option<u64>,
) -> Seq<(Seq<char>, JsonData)> {
    seq![
        ("level"@, JsonData::Str(meta.level.spec_str())),
        ("title"@, JsonData::Str(event_title(fields, meta.name@))),
        ("type"@, JsonData::Str("event"@)),
    ] + (match scope {
        Some(sid) => seq![("parent"@, JsonData::Str(scope_name(store, sid)))],
        None => Seq::<(Seq<char>, JsonData)>::empty(),
    }) + callsite_entries(meta, pid) + (match scope {
        Some(sid) => chain_fields(store, scope_chain(store, sid)),
        None => Seq::<(Seq<char>, JsonData)>::empty(),
    }) + kv_without(fields, "message"@)
}

/// Renders occurrences as line-delimited JSON records.
pub struct JsonFormatter;

impl JsonFormatter {
    pub fn new() -> (r: JsonFormatter) {
        JsonFormatter
    }

    /// Appends the four source-location members.
    fn add_callsite(b: &mut RecordBuilder, cm: &CallsiteMeta, pid: u32)
        requires
            old(b).wf(),
        ensures
            final(b).wf(),
            final(b).entries@ == old(b).entries@ + callsite_entries(*cm, pid),
    {
        let ghost prev = b.entries@;
        let fv = match &cm.file {
            Some(f) => FieldValue::Str(f.clone()),
            None => FieldValue::Null,
        };
        b.add("source.filename", &fv);
        let lv = match cm.line {
            Some(n) => FieldValue::U64(n as u64),
            None => FieldValue::Null,
        };
        b.add("source.line", &lv);
        let tv = FieldValue::Str(cm.target.clone());
        b.add("source.target", &tv);
        let mut pid_text = String::new();
        append_dec_u64(&mut pid_text, pid as u64);
        let pv = FieldValue::Str(pid_text);
        b.add("source.pid", &pv);
        proof {
            assert(b.entries@ =~= prev + callsite_entries(*cm, pid));
        }
    }

    /// Appends every field of every scope of `chain`, root first.
    fn add_chain(b: &mut RecordBuilder, store: &Vec<(u64, ScopeData)>, chain: &Vec<u64>)
        requires
            old(b).wf(),
            store_wf(store@),
            forall|j: int| 0 <= j < chain@.len() ==> store_has(store@, #[trigger] chain@[j]),
        ensures
            final(b).wf(),
            final(b).entries@ == old(b).entries@ + chain_fields(store@, chain@),
    {
        let ghost orig = b.entries@;
        let len = chain.len();
        let mut j: usize = 0;
        loop
            invariant
                0 <= j <= len,
                len == chain@.len(),
                b.wf(),
                orig == old(b).entries@,
                store_wf(store@),
                forall|t: int| 0 <= t < chain@.len() ==> store_has(store@, #[trigger] chain@[t]),
                b.entries@ == orig + chain_fields(store@, chain@.take(j as int)),
            decreases len - j,
        {
            if j == len {
                proof {
                    assert(chain@.take(len as int) =~= chain@);
                }
                return ;
            }
            let cid = chain[j];
            let cidx = match store_find(store, cid) {
                Some(i) => i,
                None => {
                    proof {
                        assert(false);
                    }
                    0
                },
            };
            let ghost mid = b.entries@;
            let fvec = store[cidx].1.fields.fields();
            let flen = fvec.len();
            let mut k: usize = 0;
            while k < flen
                invariant
                    0 <= k <= flen,
                    flen == fvec@.len(),
                    b.wf(),
                    fvec@.map_values(|e: (String, FieldValue)| (e.0@, e.1@)) == scope_fields(
                        store@,
                        cid,
                    ),
                    b.entries@ == mid + scope_fields(store@, cid).take(k as int),
                decreases flen - k,
            {
                b.add(fvec[k].0.as_str(), &fvec[k].1);
                proof {
                    let sf = scope_fields(store@, cid);
                    assert(sf.take(k as int + 1) =~= sf.take(k as int).push(sf[k as int]));
                }
                k = k + 1;
            }
            proof {
                let sf = scope_fields(store@, cid);
                assert(sf.take(sf.len() as int) =~= sf);
                lemma_chain_fields_push(store@, chain@.take(j as int), cid);
                assert(chain@.take(j as int + 1) =~= chain@.take(j as int).push(cid));
                assert(b.entries@ =~= orig + chain_fields(store@, chain@.take(j as int + 1)));
            }
            j = j + 1;
        }
    }

    /// Renders the record of a scope-lifecycle transition.
    pub fn format_span(
        store: &Vec<(u64, ScopeData)>,
        meta: &StaticMetadata,
        id: u64,
        lifecycle: SpanLifecycle,
        elapsed: Option<&String>,
    ) -> (r: String)
        requires
            store_wf(store@),
            store_has(store@, id),
        ensures
            r@ == render_record(
                span_entries(
                    store@,
                    meta.pid,
                    id,
                    lifecycle,
                    match elapsed {
                        Some(e) => Some(e@),
                        None => None,
                    },
                ),
            ),
    {
        let idx = match store_find(store, id) {
            Some(i) => i,
            None => {
                proof {
                    assert(false);
                }
                0
            },
        };
        proof {
            lemma_store_wf_get(store@, id);
        }
        let mut b = RecordBuilder::new();
        let lv = FieldValue::Str(String::from_str(store[idx].1.meta.level.as_str()));
        b.add("level", &lv);
        let tv = FieldValue::Str(store[idx].1.meta.name.clone());
        b.add("title", &tv);
        let yv = FieldValue::Str(String::from_str(lifecycle.as_str()));
        b.add("type", &yv);
        Self::add_callsite(&mut b, &store[idx].1.meta, meta.pid);
        Self::add_chain(&mut b, store, &store[idx].1.chain);
        match elapsed {
            Some(e) => {
                let ev = FieldValue::Str(e.clone());
                b.add("elapsed", &ev);
            },
            None => {},
        }
        proof {
            assert(b.entries@ =~= span_entries(
                store@,
                meta.pid,
                id,
                lifecycle,
                match elapsed {
                    Some(e) => Some(e@),
                    None => None,
                },
            ));
        }
        b.finish()
    }

    /// Renders the record of one logged event, given the nearest enclosing
    /// scope resolved by the caller.
    pub fn format_event(
        store: &Vec<(u64, ScopeData)>,
        meta: &StaticMetadata,
        event: &EventData,
        scope: Option<u64>,
    ) -> (r: String)
        requires
            store_wf(store@),
            event.fields.wf(),
            match scope {
                Some(sid) => store_has(store@, sid),
                None => true,
            },
        ensures
            r@ == render_record(event_entries(store@, meta.pid, event.meta, event.fields@, scope)),
    {
        let mut b = RecordBuilder::new();
        let lv = FieldValue::Str(String::from_str(event.meta.level.as_str()));
        b.add("level", &lv);
        let tfv = match event.fields.get("message") {
            Some(FieldValue::Str(m)) => FieldValue::Str(m.clone()),
            _ => FieldValue::Str(event.meta.name.clone()),
        };
        b.add("title", &tfv);
        proof {
            assert(tfv@ == JsonData::Str(event_title(event.fields@, event.meta.name@)));
        }
        let yv = FieldValue::Str(String::from_str("event"));
        b.add("type", &yv);
        match scope {
            Some(sid) => {
                let sidx = match store_find(store, sid) {
                    Some(i) => i,
                    None => {
                        proof {
                            assert(false);
                        }
                        0
                    },
                };
                let pv = FieldValue::Str(store[sidx].1.meta.name.clone());
                b.add("parent", &pv);
            },
            None => {},
        }
        Self::add_callsite(&mut b, &event.meta, meta.pid);
        match scope {
            Some(sid) => {
                let sidx = match store_find(store, sid) {
                    Some(i) => i,
                    None => {
                        proof {
                            assert(false);
                        }
                        0
                    },
                };
                proof {
                    lemma_store_wf_get(store@, sid);
                }
                Self::add_chain(&mut b, store, &store[sidx].1.chain);
            },
            None => {},
        }
        let ghost before_own = b.entries@;
        let fvec = event.fields.fields();
        let flen = fvec.len();
        let mut k: usize = 0;
        while k < flen
            invariant
                0 <= k <= flen,
                flen == fvec@.len(),
                b.wf(),
                fvec@.map_values(|e: (String, FieldValue)| (e.0@, e.1@)) == event.fields@,
                b.entries@ == before_own + kv_without(
                    event.fields@.take(k as int),
                    "message"@,
                ),
            decreases flen - k,
        {
            let ghost fview = event.fields@;
            match str_compare(fvec[k].0.as_str(), "message") {
                NameOrder::Same => {
                    proof {
                        lemma_kv_without_push(fview.take(k as int), "message"@, fview[k as int]);
                        assert(fview.take(k as int + 1) =~= fview.take(k as int).push(
                            fview[k as int],
                        ));
                        assert(b.entries@ =~= before_own + kv_without(
                            fview.take(k as int + 1),
                            "message"@,
                        ));
                    }
                },
                _ => {
                    proof {
                        lemma_lex_lt_irrefl("message"@);
                    }
                    b.add(fvec[k].0.as_str(), &fvec[k].1);
                    proof {
                        lemma_kv_without_push(fview.take(k as int), "message"@, fview[k as int]);
                        assert(fview.take(k as int + 1) =~= fview.take(k as int).push(
                            fview[k as int],
                        ));
                        assert(b.entries@ =~= before_own + kv_without(
                            fview.take(k as int + 1),
                            "message"@,
                        ));
                    }
                },
            }
            k = k + 1;
        }
        proof {
            assert(event.fields@.take(flen as int) =~= event.fields@);
            assert(b.entries@ =~= event_entries(
                store@,
                meta.pid,
                event.meta,
                event.fields@,
                scope,
            ));
        }
        b.finish()
    }
}

} // verus!
