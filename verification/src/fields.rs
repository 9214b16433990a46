//! The field accumulator: an ordered mapping from field name to JSON value,
//! one per scope, populated by the host engine's record callbacks.
//!
//! Names are kept sorted (by [`crate::text::lex_lt`]) so output is
//! deterministic; recording a name twice overwrites the earlier value.

use vstd::prelude::*;
use vstd::string::StrSliceExecFns;
use vstd::string::StringExecFns;

use crate::text::{lemma_lex_lt_asym, lemma_lex_lt_connex, lemma_lex_lt_irrefl, lemma_lex_lt_trans,
    lex_lt, str_compare, NameOrder};
use crate::value::{is_json_number, json_number_check, value_wf, FieldValue, JsonData};

verus! {

/// The names of a name-to-value sequence are strictly sorted (so also
/// pairwise distinct).
pub open spec fn kv_sorted(m: Seq<(Seq<char>, JsonData)>) -> bool {
    forall|i: int, j: int| 0 <= i < j < m.len() ==> lex_lt(m[i].0, m[j].0)
}

/// Every value of the sequence is well formed.
pub open spec fn kv_values_wf(m: Seq<(Seq<char>, JsonData)>) -> bool {
    forall|i: int| 0 <= i < m.len() ==> value_wf(#[trigger] m[i].1)
}

pub open spec fn kv_has_key(m: Seq<(Seq<char>, JsonData)>, q: Seq<char>) -> bool {
    exists|i: int| 0 <= i < m.len() && m[i].0 == q
}

/// The value stored under `q`, if any (first match; under `kv_sorted` the
/// match is unique).
pub open spec fn kv_get(m: Seq<(Seq<char>, JsonData)>, q: Seq<char>) -> Option<JsonData>
    decreases m.len(),
{
    if m.len() == 0 {
        None
    } else if m[0].0 == q {
        Some(m[0].1)
    } else {
        kv_get(m.drop_first(), q)
    }
}

/// With no match before `i`, lookup continues in the remainder.
pub proof fn lemma_kv_get_skip(m: Seq<(Seq<char>, JsonData)>, q: Seq<char>, i: int)
    requires
        0 <= i <= m.len(),
        forall|j: int| 0 <= j < i ==> (#[trigger] m[j].0) != q,
    ensures
        kv_get(m, q) == kv_get(m.skip(i), q),
    decreases i,
{
    if i == 0 {
        assert(m.skip(0) =~= m);
    } else {
        assert(m[0].0 != q);
        assert(m.skip(i) =~= m.drop_first().skip(i - 1));
        assert forall|j: int| 0 <= j < i - 1 implies (#[trigger] m.drop_first()[j].0) != q by {
            assert(m.drop_first()[j] == m[j + 1]);
        }
        lemma_kv_get_skip(m.drop_first(), q, i - 1);
    }
}

/// Sorted insertion of `k -> v`, overwriting an existing entry for `k`.
pub open spec fn kv_insert(m: Seq<(Seq<char>, JsonData)>, k: Seq<char>, v: JsonData) -> Seq<
    (Seq<char>, JsonData),
>
    decreases m.len(),
{
    if m.len() == 0 {
        seq![(k, v)]
    } else if lex_lt(k, m[0].0) {
        seq![(k, v)] + m
    } else if k == m[0].0 {
        seq![(k, v)] + m.drop_first()
    } else {
        seq![m[0]] + kv_insert(m.drop_first(), k, v)
    }
}

/// Inserting all entries of `other` into `m`, in order (later entries of
/// `other` win over earlier ones and over `m`).
pub open spec fn kv_merge(m: Seq<(Seq<char>, JsonData)>, other: Seq<(Seq<char>, JsonData)>) -> Seq<
    (Seq<char>, JsonData),
>
    decreases other.len(),
{
    if other.len() == 0 {
        m
    } else {
        kv_merge(kv_insert(m, other[0].0, other[0].1), other.drop_first())
    }
}

/// The entries of `m` whose name is not `k`, in order.
pub open spec fn kv_without(m: Seq<(Seq<char>, JsonData)>, k: Seq<char>) -> Seq<
    (Seq<char>, JsonData),
>
    decreases m.len(),
{
    if m.len() == 0 {
        m
    } else if m[0].0 == k {
        kv_without(m.drop_first(), k)
    } else {
        seq![m[0]] + kv_without(m.drop_first(), k)
    }
}

pub proof fn lemma_kv_without_push(
    m: Seq<(Seq<char>, JsonData)>,
    k: Seq<char>,
    e: (Seq<char>, JsonData),
)
    ensures
        kv_without(m.push(e), k) == kv_without(m, k) + if e.0 == k {
            Seq::<(Seq<char>, JsonData)>::empty()
        } else {
            seq![e]
        },
    decreases m.len(),
{
    if m.len() == 0 {
        assert(m.push(e)[0] == e);
        assert(m.push(e).drop_first() =~= m);
        assert(m =~= Seq::<(Seq<char>, JsonData)>::empty());
        if e.0 == k {
            assert(kv_without(m.push(e), k) =~= kv_without(m, k));
        } else {
            assert(kv_without(m.push(e), k) =~= kv_without(m, k) + seq![e]);
        }
    } else {
        assert(m.push(e)[0] == m[0]);
        assert(m.push(e).drop_first() =~= m.drop_first().push(e));
        lemma_kv_without_push(m.drop_first(), k, e);
        if e.0 == k {
            assert(kv_without(m.push(e), k) =~= kv_without(m, k));
        } else {
            assert(kv_without(m.push(e), k) =~= kv_without(m, k) + seq![e]);
        }
    }
}

/// A recorded name with this prefix is logging metadata already handled
/// upstream; it is never stored.
pub open spec fn is_reserved_name(name: Seq<char>) -> bool {
    name.len() >= 4 && name[0] == 'l' && name[1] == 'o' && name[2] == 'g' && name[3] == '.'
}

/// A recorded name with the raw-identifier escape prefix is stored without
/// that prefix.
pub open spec fn stored_name(name: Seq<char>) -> Seq<char> {
    if name.len() >= 2 && name[0] == 'r' && name[1] == '#' {
        name.skip(2)
    } else {
        name
    }
}

/// What one record operation does to the accumulated mapping.
pub open spec fn spec_record(
    m: Seq<(Seq<char>, JsonData)>,
    name: Seq<char>,
    v: JsonData,
) -> Seq<(Seq<char>, JsonData)> {
    if is_reserved_name(name) {
        m
    } else {
        kv_insert(m, stored_name(name), v)
    }
}

pub proof fn lemma_kv_insert_sorted(m: Seq<(Seq<char>, JsonData)>, k: Seq<char>, v: JsonData)
    requires
        kv_sorted(m),
    ensures
        kv_sorted(kv_insert(m, k, v)),
        forall|i: int|
            0 <= i < kv_insert(m, k, v).len() ==> (#[trigger] kv_insert(m, k, v)[i].0) == k
                || kv_has_key(m, kv_insert(m, k, v)[i].0),
    decreases m.len(),
{
    let r = kv_insert(m, k, v);
    if m.len() == 0 {
    } else if lex_lt(k, m[0].0) {
        assert forall|j: int| 1 <= j < r.len() implies lex_lt(k, r[j].0) by {
            if j > 1 {
                lemma_lex_lt_trans(k, m[0].0, m[j - 1].0);
            }
        }
        assert forall|i: int| 0 <= i < r.len() implies (#[trigger] r[i].0) == k || kv_has_key(
            m,
            r[i].0,
        ) by {
            if i > 0 {
                assert(m[i - 1].0 == r[i].0);
            }
        }
    } else if k == m[0].0 {
        assert forall|i: int| 0 <= i < r.len() implies (#[trigger] r[i].0) == k || kv_has_key(
            m,
            r[i].0,
        ) by {
            if i > 0 {
                assert(m[i].0 == r[i].0);
            }
        }
    } else {
        lemma_lex_lt_irrefl(k);
        if !lex_lt(m[0].0, k) {
            lemma_lex_lt_connex(k, m[0].0);
        }
        assert(lex_lt(m[0].0, k));
        let sub = kv_insert(m.drop_first(), k, v);
        lemma_kv_insert_sorted(m.drop_first(), k, v);
        assert forall|j: int| 1 <= j < r.len() implies lex_lt(r[0].0, r[j].0) by {
            assert(r[j] == sub[j - 1]);
            if sub[j - 1].0 == k {
            } else {
                let w = choose|w: int|
                    0 <= w < m.drop_first().len() && m.drop_first()[w].0 == sub[j - 1].0;
                assert(m.drop_first()[w].0 == m[w + 1].0);
                assert(lex_lt(m[0].0, m[w + 1].0));
            }
        }
        assert forall|i: int| 0 <= i < r.len() implies (#[trigger] r[i].0) == k || kv_has_key(
            m,
            r[i].0,
        ) by {
            if i > 0 {
                assert(r[i] == sub[i - 1]);
                if sub[i - 1].0 != k {
                    let w = choose|w: int|
                        0 <= w < m.drop_first().len() && m.drop_first()[w].0 == sub[i - 1].0;
                    assert(m[w + 1].0 == sub[i - 1].0);
                }
            } else {
                assert(r[0] == m[0]);
            }
        }
        assert(kv_sorted(r));
    }
}

pub proof fn lemma_kv_insert_values_wf(m: Seq<(Seq<char>, JsonData)>, k: Seq<char>, v: JsonData)
    requires
        kv_values_wf(m),
        value_wf(v),
    ensures
        kv_values_wf(kv_insert(m, k, v)),
    decreases m.len(),
{
    if m.len() == 0 {
    } else if lex_lt(k, m[0].0) {
    } else if k == m[0].0 {
    } else {
        lemma_kv_insert_values_wf(m.drop_first(), k, v);
        let r = kv_insert(m, k, v);
        let sub = kv_insert(m.drop_first(), k, v);
        assert forall|i: int| 0 <= i < r.len() implies value_wf(#[trigger] r[i].1) by {
            if i > 0 {
                assert(r[i] == sub[i - 1]);
            } else {
                assert(r[0] == m[0]);
            }
        }
    }
}

/// After an insert, lookup of `k` finds `v` and any other name is unchanged.
pub proof fn lemma_kv_insert_get(
    m: Seq<(Seq<char>, JsonData)>,
    k: Seq<char>,
    v: JsonData,
    q: Seq<char>,
)
    requires
        kv_sorted(m),
    ensures
        kv_get(kv_insert(m, k, v), q) == if q == k {
            Some(v)
        } else {
            kv_get(m, q)
        },
    decreases m.len(),
{
    let r = kv_insert(m, k, v);
    if m.len() == 0 {
        if q != k {
            assert(r.drop_first() =~= m);
        }
    } else if lex_lt(k, m[0].0) {
        assert(r.drop_first() =~= m);
    } else if k == m[0].0 {
        if q != k {
            assert(r.drop_first() =~= m.drop_first());
        }
    } else {
        lemma_lex_lt_irrefl(k);
        let sub = kv_insert(m.drop_first(), k, v);
        lemma_kv_insert_get(m.drop_first(), k, v, q);
        assert(r.drop_first() =~= sub);
        if q == m[0].0 {
            assert(r[0] == m[0]);
        }
    }
}

/// The recursive insert is an insertion (or in-place replacement) at the
/// position `i` found by a sorted scan.
pub proof fn lemma_kv_insert_at(m: Seq<(Seq<char>, JsonData)>, k: Seq<char>, v: JsonData, i: int)
    requires
        kv_sorted(m),
        0 <= i <= m.len(),
        forall|j: int| 0 <= j < i ==> lex_lt(#[trigger] m[j].0, k),
        i < m.len() ==> !lex_lt(m[i].0, k),
    ensures
        kv_insert(m, k, v) == if i < m.len() && m[i].0 == k {
            m.update(i, (k, v))
        } else {
            m.insert(i, (k, v))
        },
    decreases i,
{
    if i == 0 {
        if m.len() == 0 {
            assert(kv_insert(m, k, v) =~= m.insert(0, (k, v)));
        } else if m[0].0 == k {
            assert(kv_insert(m, k, v) =~= m.update(0, (k, v)));
        } else {
            if !lex_lt(k, m[0].0) {
                lemma_lex_lt_connex(k, m[0].0);
            }
            assert(lex_lt(k, m[0].0));
            assert(kv_insert(m, k, v) =~= m.insert(0, (k, v)));
        }
    } else {
        lemma_lex_lt_asym(m[0].0, k);
        assert(lex_lt(m[0].0, k));
        assert(m[0].0 != k) by {
            lemma_lex_lt_irrefl(k);
        }
        assert(!lex_lt(k, m[0].0));
        let sub = m.drop_first();
        assert forall|j: int| 0 <= j < i - 1 implies lex_lt(#[trigger] sub[j].0, k) by {
            assert(sub[j] == m[j + 1]);
        }
        lemma_kv_insert_at(sub, k, v, i - 1);
        if i < m.len() && m[i].0 == k {
            assert(kv_insert(m, k, v) =~= m.update(i, (k, v)));
        } else {
            assert(kv_insert(m, k, v) =~= m.insert(i, (k, v)));
        }
    }
}

/// Per-scope ordered store of recorded field names and values.
pub struct Visitor {
    pub entries: Vec<(String, FieldValue)>,
}

impl View for Visitor {
    type V = Seq<(Seq<char>, JsonData)>;

    open spec fn view(&self) -> Seq<(Seq<char>, JsonData)> {
        self.entries@.map_values(|e: (String, FieldValue)| (e.0@, e.1@))
    }
}

impl Visitor {
    /// Names sorted and number text grammatical.
    pub open spec fn wf(&self) -> bool {
        kv_sorted(self@) && kv_values_wf(self@)
    }

    pub fn new() -> (r: Visitor)
        ensures
            r.wf(),
            r@ == Seq::<(Seq<char>, JsonData)>::empty(),
    {
        let r = Visitor { entries: Vec::new() };
        proof {
            assert(r@ =~= Seq::<(Seq<char>, JsonData)>::empty());
        }
        r
    }

    /// A read-only view of the accumulated entries, sorted by name.
    pub fn fields(&self) -> (r: &Vec<(String, FieldValue)>)
        ensures
            r@.map_values(|e: (String, FieldValue)| (e.0@, e.1@)) == self@,
    {
        &self.entries
    }

    /// The value recorded under `name`, if any.
    pub fn get(&self, name: &str) -> (r: Option<&FieldValue>)
        ensures
            match r {
                Some(v) => kv_get(self@, name@) == Some(v@),
                None => kv_get(self@, name@) is None,
            },
    {
        let len = self.entries.len();
        let mut i: usize = 0;
        loop
            invariant
                0 <= i <= len,
                len == self.entries@.len(),
                forall|j: int| 0 <= j < i ==> (#[trigger] self@[j].0) != name@,
            decreases len - i,
        {
            if i == len {
                proof {
                    lemma_kv_get_skip(self@, name@, i as int);
                    assert(self@.skip(len as int) =~= Seq::<(Seq<char>, JsonData)>::empty());
                }
                return None;
            }
            match str_compare(self.entries[i].0.as_str(), name) {
                NameOrder::Same => {
                    proof {
                        lemma_kv_get_skip(self@, name@, i as int);
                        assert(self@.skip(i as int)[0] == self@[i as int]);
                    }
                    return Some(&self.entries[i].1);
                },
                _ => {
                    proof {
                        lemma_lex_lt_irrefl(name@);
                    }
                    i = i + 1;
                },
            }
        }
    }

    /// Inserts `k -> v` keeping names sorted; an existing entry for `k` is
    /// overwritten.
    fn insert_sorted(&mut self, k: String, v: FieldValue)
        requires
            old(self).wf(),
            value_wf(v@),
        ensures
            final(self).wf(),
            final(self)@ == kv_insert(old(self)@, k@, v@),
    {
        let ghost m = self@;
        let len = self.entries.len();
        let mut i: usize = 0;
        loop
            invariant
                0 <= i <= len,
                len == self.entries.len(),
                self@ == m,
                m == old(self)@,
                self.wf(),
                value_wf(v@),
                forall|j: int| 0 <= j < i ==> lex_lt(#[trigger] m[j].0, k@),
            decreases len - i,
        {
            if i == len {
                proof {
                    lemma_kv_insert_at(m, k@, v@, i as int);
                    lemma_kv_insert_sorted(m, k@, v@);
                    lemma_kv_insert_values_wf(m, k@, v@);
                }
                self.entries.insert(i, (k, v));
                proof {
                    assert(self@ =~= m.insert(i as int, (k@, v@)));
                }
                return ;
            }
            match str_compare(self.entries[i].0.as_str(), k.as_str()) {
                NameOrder::Before => {
                    i = i + 1;
                },
                NameOrder::Same => {
                    proof {
                        lemma_lex_lt_irrefl(k@);
                        assert(m[i as int].0 == k@);
                        lemma_kv_insert_at(m, k@, v@, i as int);
                        lemma_kv_insert_sorted(m, k@, v@);
                        lemma_kv_insert_values_wf(m, k@, v@);
                    }
                    self.entries.remove(i);
                    self.entries.insert(i, (k, v));
                    proof {
                        assert(self@ =~= m.update(i as int, (k@, v@)));
                    }
                    return ;
                },
                NameOrder::After => {
                    proof {
                        lemma_lex_lt_irrefl(k@);
                        lemma_lex_lt_asym(k@, self.entries[i as int].0@);
                        assert(!lex_lt(m[i as int].0, k@));
                        lemma_kv_insert_at(m, k@, v@, i as int);
                        lemma_kv_insert_sorted(m, k@, v@);
                        lemma_kv_insert_values_wf(m, k@, v@);
                    }
                    self.entries.insert(i, (k, v));
                    proof {
                        assert(self@ =~= m.insert(i as int, (k@, v@)));
                    }
                    return ;
                },
            }
        }
    }

    /// Records one field under the naming policy: a reserved-metadata name
    /// is dropped, a raw-identifier prefix is stripped before storage.
    pub fn record(&mut self, name: &str, value: FieldValue)
        requires
            old(self).wf(),
            value_wf(value@),
        ensures
            final(self).wf(),
            final(self)@ == spec_record(old(self)@, name@, value@),
    {
        let len = name.unicode_len();
        if len >= 4 && name.get_char(0) == 'l' && name.get_char(1) == 'o' && name.get_char(2)
            == 'g' && name.get_char(3) == '.' {
            return ;
        }
        if len >= 2 && name.get_char(0) == 'r' && name.get_char(1) == '#' {
            let stored = String::from_str(name.substring_char(2, len));
            proof {
                assert(stored@ =~= stored_name(name@));
            }
            self.insert_sorted(stored, value);
        } else {
            let stored = String::from_str(name);
            self.insert_sorted(stored, value);
        }
    }

    pub fn record_i64(&mut self, name: &str, value: i64)
        requires
            old(self).wf(),
        ensures
            final(self).wf(),
            final(self)@ == spec_record(old(self)@, name@, JsonData::I64(value)),
    {
        self.record(name, FieldValue::I64(value));
    }

    pub fn record_u64(&mut self, name: &str, value: u64)
        requires
            old(self).wf(),
        ensures
            final(self).wf(),
            final(self)@ == spec_record(old(self)@, name@, JsonData::U64(value)),
    {
        self.record(name, FieldValue::U64(value));
    }

    pub fn record_bool(&mut self, name: &str, value: bool)
        requires
            old(self).wf(),
        ensures
            final(self).wf(),
            final(self)@ == spec_record(old(self)@, name@, JsonData::Bool(value)),
    {
        self.record(name, FieldValue::Bool(value));
    }

    pub fn record_str(&mut self, name: &str, value: &str)
        requires
            old(self).wf(),
        ensures
            final(self).wf(),
            final(self)@ == spec_record(old(self)@, name@, JsonData::Str(value@)),
    {
        self.record(name, FieldValue::Str(String::from_str(value)));
    }

    /// Records a value already rendered to text by the host (the debug form
    /// of a value with no primitive representation).
    pub fn record_debug(&mut self, name: &str, rendered: &str)
        requires
            old(self).wf(),
        ensures
            final(self).wf(),
            final(self)@ == spec_record(old(self)@, name@, JsonData::Str(rendered@)),
    {
        self.record(name, FieldValue::Str(String::from_str(rendered)));
    }

    /// Records an absent value (the host's rendering of a non-finite
    /// number).
    pub fn record_null(&mut self, name: &str)
        requires
            old(self).wf(),
        ensures
            final(self).wf(),
            final(self)@ == spec_record(old(self)@, name@, JsonData::Null),
    {
        self.record(name, FieldValue::Null);
    }

    /// Records number text: stored as a JSON number when grammatical, else
    /// degraded to its string form rather than rejected.
    pub fn record_num(&mut self, name: &str, text: String)
        requires
            old(self).wf(),
        ensures
            final(self).wf(),
            final(self)@ == spec_record(
                old(self)@,
                name@,
                if is_json_number(text@) {
                    JsonData::Num(text@)
                } else {
                    JsonData::Str(text@)
                },
            ),
    {
        if json_number_check(text.as_str()) {
            self.record(name, FieldValue::Num(text));
        } else {
            self.record(name, FieldValue::Str(text));
        }
    }

    /// Inserts every entry of `other` (in order) into this accumulator.
    pub fn merge_from(&mut self, other: Visitor)
        requires
            old(self).wf(),
            other.wf(),
        ensures
            final(self).wf(),
            final(self)@ == kv_merge(old(self)@, other@),
    {
        let ghost orig = self@;
        let ghost orig_other = other@;
        let mut rest = other;
        loop
            invariant
                self.wf(),
                rest.wf(),
                orig == old(self)@,
                orig_other == other@,
                kv_merge(orig, orig_other) == kv_merge(self@, rest@),
            decreases rest.entries.len(),
        {
            if rest.entries.len() == 0 {
                proof {
                    assert(kv_merge(self@, rest@) == self@);
                }
                return ;
            }
            let ghost prev = self@;
            let ghost prev_rest = rest@;
            let (k, v) = rest.entries.remove(0);
            proof {
                assert(rest@ =~= prev_rest.drop_first());
                assert(prev_rest[0].1 == v@);
                assert(value_wf(v@));
            }
            self.insert_sorted(k, v);
            proof {
                assert(self@ == kv_insert(prev, prev_rest[0].0, prev_rest[0].1));
            }
        }
    }
}

impl Default for Visitor {
    fn default() -> (r: Visitor)
        ensures
            r.wf(),
            r@ == Seq::<(Seq<char>, JsonData)>::empty(),
    {
        Visitor::new()
    }
}

} // verus!
