//! Scopes as this adapter sees them: the static metadata of a callsite, the
//! auxiliary data attached to each scope (accumulated fields, ancestor
//! chain, timer state), and the id-keyed store of that data.

use vstd::prelude::*;

use crate::fields::{kv_get, Visitor};
use crate::value::JsonData;

verus! {

/// Severity level of a scope or event.
#[derive(Clone, Copy)]
pub enum Level {
    Trace,
    Debug,
    Info,
    Warn,
    Error,
}

impl Level {
    pub open spec fn spec_str(&self) -> Seq<char> {
        match self {
            Level::Trace => "TRACE"@,
            Level::Debug => "DEBUG"@,
            Level::Info => "INFO"@,
            Level::Warn => "WARN"@,
            Level::Error => "ERROR"@,
        }
    }

    pub fn as_str(&self) -> (r: &'static str)
        ensures
            r@ == self.spec_str(),
    {
        match self {
            Level::Trace => "TRACE",
            Level::Debug => "DEBUG",
            Level::Info => "INFO",
            Level::Warn => "WARN",
            Level::Error => "ERROR",
        }
    }
}

/// The two scope-lifecycle transitions that produce a record of their own.
pub enum SpanLifecycle {
    Start,
    End,
}

impl SpanLifecycle {
    pub open spec fn spec_str(&self) -> Seq<char> {
        match self {
            SpanLifecycle::Start => "start"@,
            SpanLifecycle::End => "end"@,
        }
    }

    pub fn as_str(&self) -> (r: &'static str)
        ensures
            r@ == self.spec_str(),
    {
        match self {
            SpanLifecycle::Start => "start",
            SpanLifecycle::End => "end",
        }
    }
}

/// Static metadata of the callsite that created a scope or logged an event.
pub struct CallsiteMeta {
    pub name: String,
    pub level: Level,
    pub file: Option<String>,
    pub line: Option<u32>,
    pub target: String,
}

/// Process-wide identifying data, captured once at adapter construction.
pub struct StaticMetadata {
    pub name: String,
    pub pid: u32,
}

/// One loggable event as handed to the adapter: its callsite metadata, its
/// own recorded fields, and its explicit parent scope if the callsite set
/// one.
pub struct EventData {
    pub meta: CallsiteMeta,
    pub fields: Visitor,
    pub parent: Option<u64>,
}

/// The auxiliary data this adapter attaches to one scope, for as long as
/// the scope is alive: the close callback releases it, as the host engine
/// releases the scope itself (and may later hand its id to a new scope).
///
/// `chain` is the scope's ancestor chain, root first, ending with the scope
/// itself; `start` is the timestamp of the first entry, attached at most
/// once per scope lifetime.
pub struct ScopeData {
    pub meta: CallsiteMeta,
    pub chain: Vec<u64>,
    pub fields: Visitor,
    pub start: Option<u64>,
}

/// The data stored under `id`, if any (first match; a well-formed store has
/// unique ids).
pub open spec fn sid_get(s: Seq<(u64, ScopeData)>, id: u64) -> Option<ScopeData>
    decreases s.len(),
{
    if s.len() == 0 {
        None
    } else if s[0].0 == id {
        Some(s[0].1)
    } else {
        sid_get(s.drop_first(), id)
    }
}

pub open spec fn store_has(s: Seq<(u64, ScopeData)>, id: u64) -> bool {
    sid_get(s, id) is Some
}

/// The accumulated fields of the scope stored under `id`.
pub open spec fn scope_fields(s: Seq<(u64, ScopeData)>, id: u64) -> Seq<(Seq<char>, JsonData)> {
    match sid_get(s, id) {
        Some(d) => d.fields@,
        None => Seq::empty(),
    }
}

/// The ancestor chain of the scope stored under `id`.
pub open spec fn scope_chain(s: Seq<(u64, ScopeData)>, id: u64) -> Seq<u64> {
    match sid_get(s, id) {
        Some(d) => d.chain@,
        None => Seq::empty(),
    }
}

/// The fields of every scope of `chain` in order: the root's fields first,
/// the nearest scope's fields last.
pub open spec fn chain_fields(s: Seq<(u64, ScopeData)>, chain: Seq<u64>) -> Seq<
    (Seq<char>, JsonData),
>
    decreases chain.len(),
{
    if chain.len() == 0 {
        Seq::empty()
    } else {
        scope_fields(s, chain[0]) + chain_fields(s, chain.drop_first())
    }
}

pub proof fn lemma_chain_fields_push(s: Seq<(u64, ScopeData)>, c: Seq<u64>, x: u64)
    ensures
        chain_fields(s, c.push(x)) == chain_fields(s, c) + scope_fields(s, x),
    decreases c.len(),
{
    if c.len() == 0 {
        assert(c.push(x)[0] == x);
        assert(c.push(x).drop_first() =~= c);
        assert(c =~= Seq::<u64>::empty());
        assert(chain_fields(s, c.push(x)) =~= chain_fields(s, c) + scope_fields(s, x));
    } else {
        assert(c.push(x)[0] == c[0]);
        assert(c.push(x).drop_first() =~= c.drop_first().push(x));
        lemma_chain_fields_push(s, c.drop_first(), x);
        assert(chain_fields(s, c.push(x)) =~= chain_fields(s, c) + scope_fields(s, x));
    }
}

/// Nearest-first lookup of `q` along `chain`: the nearest scope is checked
/// first, then its parent, and so on.
pub open spec fn nearest_lookup(s: Seq<(u64, ScopeData)>, chain: Seq<u64>, q: Seq<char>) -> Option<
    JsonData,
>
    decreases chain.len(),
{
    if chain.len() == 0 {
        None
    } else {
        match kv_get(scope_fields(s, chain.last()), q) {
            Some(v) => Some(v),
            None => nearest_lookup(s, chain.drop_last(), q),
        }
    }
}

/// Well-formedness of one scope's data within store `s`: its accumulator is
/// well formed, its chain ends with itself, and each chain element is a
/// stored scope whose own chain is the corresponding prefix.
pub open spec fn scope_wf(s: Seq<(u64, ScopeData)>, id: u64, d: ScopeData) -> bool {
    &&& d.fields.wf()
    &&& d.chain@.len() >= 1
    &&& d.chain@.last() == id
    &&& forall|j: int| 0 <= j < d.chain@.len() ==> store_has(s, #[trigger] d.chain@[j])
    &&& forall|j: int|
        0 <= j < d.chain@.len() ==> scope_chain(s, #[trigger] d.chain@[j]) == d.chain@.take(j + 1)
}

/// Well-formedness of the whole store: unique ids, every scope well formed.
pub open spec fn store_wf(s: Seq<(u64, ScopeData)>) -> bool {
    &&& forall|i: int, j: int| 0 <= i < j < s.len() ==> (#[trigger] s[i].0) != (#[trigger] s[j].0)
    &&& forall|i: int| 0 <= i < s.len() ==> scope_wf(s, s[i].0, #[trigger] s[i].1)
}

/// Some other stored scope's ancestor chain passes through `id`. While
/// this holds, the scope under `id` has a live descendant and must not be
/// released.
pub open spec fn id_referenced(s: Seq<(u64, ScopeData)>, id: u64) -> bool {
    exists|i: int| 0 <= i < s.len() && s[i].0 != id && (#[trigger] s[i].1).chain@.contains(id)
}

/// The timer state of the scope stored under `id`.
pub open spec fn scope_start(s: Seq<(u64, ScopeData)>, id: u64) -> Option<u64> {
    match sid_get(s, id) {
        Some(d) => d.start,
        None => None,
    }
}

/// The static name of the scope stored under `id`.
pub open spec fn scope_name(s: Seq<(u64, ScopeData)>, id: u64) -> Seq<char> {
    match sid_get(s, id) {
        Some(d) => d.meta.name@,
        None => Seq::empty(),
    }
}

/// With no match before `i`, lookup continues in the remainder.
pub proof fn lemma_sid_get_skip(s: Seq<(u64, ScopeData)>, id: u64, i: int)
    requires
        0 <= i <= s.len(),
        forall|j: int| 0 <= j < i ==> (#[trigger] s[j].0) != id,
    ensures
        sid_get(s, id) == sid_get(s.skip(i), id),
    decreases i,
{
    if i == 0 {
        assert(s.skip(0) =~= s);
    } else {
        assert(s[0].0 != id);
        assert(s.skip(i) =~= s.drop_first().skip(i - 1));
        assert forall|j: int| 0 <= j < i - 1 implies (#[trigger] s.drop_first()[j].0) != id by {
            assert(s.drop_first()[j] == s[j + 1]);
        }
        lemma_sid_get_skip(s.drop_first(), id, i - 1);
    }
}

/// In a store with unique ids, the entry at index `i` is what lookup of its
/// id finds.
pub proof fn lemma_sid_get_index(s: Seq<(u64, ScopeData)>, i: int)
    requires
        forall|p: int, q: int|
            0 <= p < q < s.len() ==> (#[trigger] s[p].0) != (#[trigger] s[q].0),
        0 <= i < s.len(),
    ensures
        sid_get(s, s[i].0) == Some(s[i].1),
{
    lemma_sid_get_skip(s, s[i].0, i);
    assert(s.skip(i)[0] == s[i]);
}

/// Lookup after appending a fresh entry.
pub proof fn lemma_sid_get_push(s: Seq<(u64, ScopeData)>, id: u64, d: ScopeData, q: u64)
    ensures
        sid_get(s.push((id, d)), q) == if sid_get(s, q) is Some {
            sid_get(s, q)
        } else if q == id {
            Some(d)
        } else {
            None
        },
    decreases s.len(),
{
    if s.len() == 0 {
        assert(s.push((id, d))[0] == (id, d));
        assert(s.push((id, d)).drop_first() =~= Seq::<(u64, ScopeData)>::empty());
    } else {
        assert(s.push((id, d))[0] == s[0]);
        assert(s.push((id, d)).drop_first() =~= s.drop_first().push((id, d)));
        lemma_sid_get_push(s.drop_first(), id, d, q);
    }
}

/// Lookup after replacing the data stored at index `i` (same id).
pub proof fn lemma_sid_get_update(s: Seq<(u64, ScopeData)>, i: int, d: ScopeData, q: u64)
    requires
        forall|p: int, r: int|
            0 <= p < r < s.len() ==> (#[trigger] s[p].0) != (#[trigger] s[r].0),
        0 <= i < s.len(),
    ensures
        sid_get(s.update(i, (s[i].0, d)), q) == if q == s[i].0 {
            Some(d)
        } else {
            sid_get(s, q)
        },
    decreases s.len(),
{
    let t = s.update(i, (s[i].0, d));
    if i == 0 {
        assert(t[0] == (s[0].0, d));
        if q != s[0].0 {
            assert(t.drop_first() =~= s.drop_first());
        }
    } else {
        assert(t[0] == s[0]);
        assert(t.drop_first() =~= s.drop_first().update(i - 1, (s.drop_first()[i - 1].0, d)));
        assert forall|p: int, r: int|
            0 <= p < r < s.drop_first().len() implies (#[trigger] s.drop_first()[p].0) != (
        #[trigger] s.drop_first()[r].0) by {
            assert(s.drop_first()[p] == s[p + 1]);
            assert(s.drop_first()[r] == s[r + 1]);
        }
        lemma_sid_get_update(s.drop_first(), i - 1, d, q);
        if q == s[0].0 {
            assert(q != s[i].0);
        }
    }
}

/// A failed lookup means no entry holds the id.
pub proof fn lemma_sid_get_none_all(s: Seq<(u64, ScopeData)>, id: u64)
    requires
        sid_get(s, id) is None,
    ensures
        forall|i: int| 0 <= i < s.len() ==> (#[trigger] s[i].0) != id,
    decreases s.len(),
{
    if s.len() > 0 {
        lemma_sid_get_none_all(s.drop_first(), id);
        assert forall|i: int| 0 <= i < s.len() implies (#[trigger] s[i].0) != id by {
            if i > 0 {
                assert(s.drop_first()[i - 1] == s[i]);
            }
        }
    }
}

/// A successful lookup names some entry of the store.
pub proof fn lemma_sid_get_some_index(s: Seq<(u64, ScopeData)>, id: u64)
    requires
        sid_get(s, id) is Some,
    ensures
        exists|i: int|
            0 <= i < s.len() && (#[trigger] s[i]) == (id, sid_get(s, id).unwrap()),
    decreases s.len(),
{
    if s[0].0 == id {
        assert(s[0] == (id, sid_get(s, id).unwrap()));
    } else {
        lemma_sid_get_some_index(s.drop_first(), id);
        let i = choose|i: int|
            0 <= i < s.drop_first().len() && (#[trigger] s.drop_first()[i]) == (
            id,
            sid_get(s.drop_first(), id).unwrap(),
            );
        assert(s[i + 1] == (id, sid_get(s, id).unwrap()));
    }
}

/// In a well-formed store, every stored scope is well formed.
pub proof fn lemma_store_wf_get(s: Seq<(u64, ScopeData)>, id: u64)
    requires
        store_wf(s),
        sid_get(s, id) is Some,
    ensures
        scope_wf(s, id, sid_get(s, id).unwrap()),
{
    lemma_sid_get_some_index(s, id);
    let i = choose|i: int|
        0 <= i < s.len() && (#[trigger] s[i]) == (id, sid_get(s, id).unwrap());
    assert(scope_wf(s, s[i].0, s[i].1));
}

/// Replacing one scope's data without touching its chain keeps the store
/// well formed and leaves every lookup-derived chain unchanged.
pub proof fn lemma_store_update_same_chain(s: Seq<(u64, ScopeData)>, i: int, d: ScopeData)
    requires
        store_wf(s),
        0 <= i < s.len(),
        d.chain@ == s[i].1.chain@,
        d.fields.wf(),
    ensures
        store_wf(s.update(i, (s[i].0, d))),
        forall|q: u64| #[trigger]
            store_has(s.update(i, (s[i].0, d)), q) == store_has(s, q),
        forall|q: u64| #[trigger]
            scope_chain(s.update(i, (s[i].0, d)), q) == scope_chain(s, q),
        sid_get(s.update(i, (s[i].0, d)), s[i].0) == Some(d),
        forall|q: u64|
            q != s[i].0 ==> #[trigger] sid_get(s.update(i, (s[i].0, d)), q) == sid_get(s, q),
{
    let t = s.update(i, (s[i].0, d));
    assert forall|q: u64| #[trigger] sid_get(t, q) == if q == s[i].0 {
        Some(d)
    } else {
        sid_get(s, q)
    } by {
        lemma_sid_get_update(s, i, d, q);
    }
    lemma_sid_get_index(s, i);
    assert forall|p: int| 0 <= p < t.len() implies scope_wf(t, t[p].0, #[trigger] t[p].1) by {
        let od = s[p].1;
        assert(scope_wf(s, s[p].0, od));
        if p == i {
            assert(t[p].1 == d);
            assert(d.chain@ == od.chain@);
        }
    }
}

/// Lookup after removing the entry at index `i`.
pub proof fn lemma_sid_get_remove(s: Seq<(u64, ScopeData)>, i: int, q: u64)
    requires
        forall|p: int, r: int|
            0 <= p < r < s.len() ==> (#[trigger] s[p].0) != (#[trigger] s[r].0),
        0 <= i < s.len(),
    ensures
        sid_get(s.remove(i), q) == if q == s[i].0 {
            None
        } else {
            sid_get(s, q)
        },
    decreases s.len(),
{
    let t = s.remove(i);
    if i == 0 {
        assert(t =~= s.drop_first());
        if q == s[0].0 {
            assert forall|j: int| 0 <= j < t.len() implies (#[trigger] t[j].0) != q by {
                assert(t[j] == s[j + 1]);
            }
            lemma_sid_get_skip(t, q, t.len() as int);
            assert(t.skip(t.len() as int) =~= Seq::<(u64, ScopeData)>::empty());
        }
    } else {
        assert(t[0] == s[0]);
        assert(t.drop_first() =~= s.drop_first().remove(i - 1));
        assert forall|p: int, r: int|
            0 <= p < r < s.drop_first().len() implies (#[trigger] s.drop_first()[p].0) != (
        #[trigger] s.drop_first()[r].0) by {
            assert(s.drop_first()[p] == s[p + 1]);
            assert(s.drop_first()[r] == s[r + 1]);
        }
        lemma_sid_get_remove(s.drop_first(), i - 1, q);
        if q == s[0].0 {
            assert(q != s[i].0);
        }
    }
}

/// Removing a scope that no other scope's chain passes through keeps the
/// store well formed and leaves every other lookup unchanged.
pub proof fn lemma_store_remove(s: Seq<(u64, ScopeData)>, i: int)
    requires
        store_wf(s),
        0 <= i < s.len(),
        !id_referenced(s, s[i].0),
    ensures
        store_wf(s.remove(i)),
        sid_get(s.remove(i), s[i].0) is None,
        forall|q: u64| q != s[i].0 ==> #[trigger] sid_get(s.remove(i), q) == sid_get(s, q),
{
    let id = s[i].0;
    let t = s.remove(i);
    assert forall|q: u64| #[trigger] sid_get(t, q) == if q == id {
        None
    } else {
        sid_get(s, q)
    } by {
        lemma_sid_get_remove(s, i, q);
    }
    assert forall|x: int| 0 <= x < t.len() implies t[x] == (if x < i {
        s[x]
    } else {
        s[x + 1]
    }) by {}
    assert forall|p: int, r: int| 0 <= p < r < t.len() implies (#[trigger] t[p].0) != (
    #[trigger] t[r].0) by {}
    assert forall|x: int| 0 <= x < t.len() implies scope_wf(t, t[x].0, #[trigger] t[x].1) by {
        let ox: int = if x < i {
            x
        } else {
            x + 1
        };
        let d = s[ox].1;
        assert(t[x] == s[ox]);
        assert(scope_wf(s, s[ox].0, d));
        assert(s[ox].0 != id);
        assert forall|j: int| 0 <= j < d.chain@.len() implies store_has(
            t,
            #[trigger] d.chain@[j],
        ) && scope_chain(t, d.chain@[j]) == d.chain@.take(j + 1) by {
            assert(d.chain@[j] != id) by {
                if d.chain@[j] == id {
                    assert(d.chain@.contains(id));
                    assert(id_referenced(s, id));
                }
            }
            assert(sid_get(t, d.chain@[j]) == sid_get(s, d.chain@[j]));
        }
    }
}

/// Appending a fresh scope whose chain extends its parent's (or starts a
/// new root) keeps the store well formed and leaves other lookups
/// unchanged.
pub proof fn lemma_store_push_scope(
    s: Seq<(u64, ScopeData)>,
    id: u64,
    d: ScopeData,
    parent: Option<u64>,
)
    requires
        store_wf(s),
        sid_get(s, id) is None,
        d.fields.wf(),
        match parent {
            None => d.chain@ == seq![id],
            Some(p) => store_has(s, p) && d.chain@ == scope_chain(s, p).push(id),
        },
    ensures
        store_wf(s.push((id, d))),
        sid_get(s.push((id, d)), id) == Some(d),
        forall|q: u64| q != id ==> #[trigger] sid_get(s.push((id, d)), q) == sid_get(s, q),
{
    let t = s.push((id, d));
    lemma_sid_get_none_all(s, id);
    assert forall|q: u64| #[trigger] sid_get(t, q) == if q == id {
        Some(d)
    } else {
        sid_get(s, q)
    } by {
        lemma_sid_get_push(s, id, d, q);
    }
    assert forall|i: int, j: int| 0 <= i < j < t.len() implies (#[trigger] t[i].0) != (
    #[trigger] t[j].0) by {
        if j == s.len() {
            assert(t[i] == s[i]);
        }
    }
    match parent {
        None => {
            assert(d.chain@.last() == id);
        },
        Some(p) => {
            lemma_store_wf_get(s, p);
            assert(d.chain@.last() == id);
        },
    }
    assert forall|q: int| 0 <= q < t.len() implies scope_wf(t, t[q].0, #[trigger] t[q].1) by {
        if q < s.len() {
            let od = s[q].1;
            assert(scope_wf(s, s[q].0, od));
            assert forall|j: int| 0 <= j < od.chain@.len() implies store_has(
                t,
                #[trigger] od.chain@[j],
            ) && scope_chain(t, od.chain@[j]) == od.chain@.take(j + 1) by {
                assert(store_has(s, od.chain@[j]));
                assert(od.chain@[j] != id);
            }
        } else {
            assert(t[q].1 == d);
            match parent {
                None => {
                    assert forall|j: int| 0 <= j < d.chain@.len() implies store_has(
                        t,
                        #[trigger] d.chain@[j],
                    ) && scope_chain(t, d.chain@[j]) == d.chain@.take(j + 1) by {
                        assert(j == 0);
                        assert(d.chain@[0] == id);
                        assert(d.chain@.take(1) =~= d.chain@);
                    }
                },
                Some(p) => {
                    let pd = sid_get(s, p).unwrap();
                    lemma_store_wf_get(s, p);
                    let pc = pd.chain@;
                    assert forall|j: int| 0 <= j < d.chain@.len() implies store_has(
                        t,
                        #[trigger] d.chain@[j],
                    ) && scope_chain(t, d.chain@[j]) == d.chain@.take(j + 1) by {
                        if j < pc.len() {
                            assert(d.chain@[j] == pc[j]);
                            assert(store_has(s, pc[j]));
                            assert(pc[j] != id);
                            assert(scope_chain(t, pc[j]) == scope_chain(s, pc[j]));
                            assert(scope_chain(s, pc[j]) == pc.take(j + 1));
                            assert(d.chain@.take(j + 1) =~= pc.take(j + 1));
                        } else {
                            assert(d.chain@[j] == id);
                            assert(scope_chain(t, id) == d.chain@);
                            assert(d.chain@.take(j + 1) =~= d.chain@);
                        }
                    }
                },
            }
        }
    }
}

/// Finds the index holding `id`, if any.
pub fn store_find(store: &Vec<(u64, ScopeData)>, id: u64) -> (r: Option<usize>)
    ensures
        match r {
            Some(i) => i < store@.len() && store@[i as int].0 == id && sid_get(store@, id)
                == Some(store@[i as int].1),
            None => sid_get(store@, id) is None,
        },
{
    let len = store.len();
    let mut i: usize = 0;
    loop
        invariant
            0 <= i <= len,
            len == store@.len(),
            forall|j: int| 0 <= j < i ==> (#[trigger] store@[j].0) != id,
        decreases len - i,
    {
        if i == len {
            proof {
                lemma_sid_get_skip(store@, id, i as int);
                assert(store@.skip(len as int) =~= Seq::<(u64, ScopeData)>::empty());
            }
            return None;
        }
        if store[i].0 == id {
            proof {
                lemma_sid_get_skip(store@, id, i as int);
                assert(store@.skip(i as int)[0] == store@[i as int]);
            }
            return Some(i);
        }
        i = i + 1;
    }
}

} // verus!
