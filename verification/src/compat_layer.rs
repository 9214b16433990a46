//! The adapter itself: it receives the host engine's lifecycle callbacks,
//! keeps each scope's auxiliary data (fields, ancestor chain, timer state),
//! and returns the JSON record line each loggable occurrence produces; the
//! host writes the returned lines to its sink.
//!
//! A scope's record of kind `start` is emitted when the scope is created;
//! the `end` record at close carries the elapsed wall-clock time from the
//! scope's first entry, unaffected by re-entries in between. Closing is
//! terminal: it also releases the scope's auxiliary data, as the host
//! engine releases the scope itself — so a host that hands a closed
//! scope's id to a new scope finds the id free again.

use vstd::prelude::*;

use crate::duration::{format_duration, spec_format_duration};
use crate::fields::{kv_merge, Visitor};
use crate::json::{event_entries, render_record, span_entries, JsonFormatter};
use crate::scope::{id_referenced, lemma_store_remove, lemma_store_update_same_chain,
    lemma_store_wf_get, lemma_store_push_scope, nearest_lookup, scope_chain, scope_start,
    sid_get, store_find, store_has, store_wf, CallsiteMeta, EventData, ScopeData, SpanLifecycle,
    StaticMetadata};
use crate::value::FieldValue;

verus! {

/// The scope an event's record is attached to: its explicit parent when
/// set and present, else the caller's currently active scope.
pub open spec fn resolve_scope(
    s: Seq<(u64, ScopeData)>,
    parent: Option<u64>,
    current: Option<u64>,
) -> Option<u64> {
    match parent {
        Some(p) => if store_has(s, p) {
            Some(p)
        } else {
            current
        },
        None => current,
    }
}

/// Elapsed nanoseconds between a scope's first entry and its close, read
/// from a monotonic clock (never negative).
pub open spec fn spec_elapsed_ns(start: u64, now: u64) -> nat {
    if now >= start {
        (now - start) as nat
    } else {
        0
    }
}

/// The rendering of the elapsed time emitted on a scope's close.
pub open spec fn spec_elapsed_str(start: u64, now: u64) -> Seq<char> {
    spec_format_duration(
        spec_elapsed_ns(start, now) / 1_000_000_000,
        spec_elapsed_ns(start, now) % 1_000_000_000,
    )
}

fn copy_chain(src: &Vec<u64>) -> (r: Vec<u64>)
    ensures
        r@ == src@,
{
    let len = src.len();
    let mut r: Vec<u64> = Vec::new();
    let mut i: usize = 0;
    while i < len
        invariant
            0 <= i <= len,
            len == src@.len(),
            r@ == src@.take(i as int),
        decreases len - i,
    {
        r.push(src[i]);
        proof {
            assert(src@.take(i as int + 1) =~= src@.take(i as int).push(src@[i as int]));
        }
        i = i + 1;
    }
    proof {
        assert(src@.take(len as int) =~= src@);
    }
    r
}

/// The adapter registered with the host engine.
///
/// The host owns scope lifetime; this adapter only keeps auxiliary data
/// keyed by scope id, from the scope's creation to its close. The host
/// closes children before their parents, so a closing scope is never on a
/// stored ancestor chain other than its own.
pub struct CompatLayer {
    pub meta: StaticMetadata,
    pub scopes: Vec<(u64, ScopeData)>,
}

impl CompatLayer {
    pub open spec fn wf(&self) -> bool {
        store_wf(self.scopes@)
    }

    pub fn new(name: String, pid: u32) -> (r: CompatLayer)
        ensures
            r.wf(),
            r.scopes@ == Seq::<(u64, ScopeData)>::empty(),
            r.meta.name@ == name@,
            r.meta.pid == pid,
    {
        let r = CompatLayer { meta: StaticMetadata { name, pid }, scopes: Vec::new() };
        proof {
            assert(r.scopes@ =~= Seq::<(u64, ScopeData)>::empty());
        }
        r
    }

    /// Whether auxiliary data is attached under `id`.
    pub fn contains(&self, id: u64) -> (r: bool)
        ensures
            r == store_has(self.scopes@, id),
    {
        match store_find(&self.scopes, id) {
            Some(_) => true,
            None => false,
        }
    }

    /// Whether some other scope's ancestor chain passes through `id`
    /// (such a scope is a live descendant, so `id` must not close yet).
    pub fn is_referenced(&self, id: u64) -> (r: bool)
        ensures
            r == id_referenced(self.scopes@, id),
    {
        let n = self.scopes.len();
        let mut i: usize = 0;
        while i < n
            invariant
                0 <= i <= n,
                n == self.scopes@.len(),
                forall|x: int|
                    0 <= x < i ==> self.scopes@[x].0 == id || !(#[trigger] self.scopes@[x].1).chain@.contains(
                        id,
                    ),
            decreases n - i,
        {
            if self.scopes[i].0 != id {
                let chain = &self.scopes[i].1.chain;
                let m = chain.len();
                let mut j: usize = 0;
                while j < m
                    invariant
                        0 <= j <= m,
                        m == chain@.len(),
                        0 <= i < self.scopes@.len(),
                        chain@ == self.scopes@[i as int].1.chain@,
                        self.scopes@[i as int].0 != id,
                        forall|y: int| 0 <= y < j ==> (#[trigger] chain@[y]) != id,
                    decreases m - j,
                {
                    if chain[j] == id {
                        proof {
                            assert(self.scopes@[i as int].1.chain@[j as int] == id);
                            assert(self.scopes@[i as int].1.chain@.contains(id));
                        }
                        return true;
                    }
                    j = j + 1;
                }
                proof {
                    assert(!self.scopes@[i as int].1.chain@.contains(id)) by {
                        if self.scopes@[i as int].1.chain@.contains(id) {
                            let y = choose|y: int|
                                0 <= y < chain@.len() && chain@[y] == id;
                            assert(chain@[y] != id);
                        }
                    }
                }
            }
            i = i + 1;
        }
        proof {
            if id_referenced(self.scopes@, id) {
                let x = choose|x: int|
                    0 <= x < self.scopes@.len() && self.scopes@[x].0 != id && (
                    #[trigger] self.scopes@[x].1).chain@.contains(id);
                assert(self.scopes@[x].0 == id || !self.scopes@[x].1.chain@.contains(id));
            }
        }
        false
    }

    /// Whether the scope under `id` has been entered at least once.
    pub fn has_started(&self, id: u64) -> (r: bool)
        ensures
            r == (scope_start(self.scopes@, id) is Some),
    {
        match store_find(&self.scopes, id) {
            Some(i) => self.scopes[i].1.start.is_some(),
            None => false,
        }
    }

    /// Scope created: attach a fresh accumulator holding the scope's
    /// initial attributes, link it under its parent, and return the `start`
    /// record.
    pub fn on_new_span(
        &mut self,
        meta: CallsiteMeta,
        parent: Option<u64>,
        id: u64,
        attrs: Visitor,
    ) -> (line: String)
        requires
            old(self).wf(),
            !store_has(old(self).scopes@, id),
            match parent {
                Some(p) => store_has(old(self).scopes@, p),
                None => true,
            },
            attrs.wf(),
        ensures
            final(self).wf(),
            final(self).meta == old(self).meta,
            store_has(final(self).scopes@, id),
            ({
                let d = sid_get(final(self).scopes@, id).unwrap();
                &&& d.meta == meta
                &&& d.chain@ == match parent {
                    None => seq![id],
                    Some(p) => scope_chain(old(self).scopes@, p).push(id),
                }
                &&& d.fields@ == attrs@
                &&& d.start is None
            }),
            forall|q: u64|
                q != id ==> #[trigger] sid_get(final(self).scopes@, q) == sid_get(
                    old(self).scopes@,
                    q,
                ),
            line@ == render_record(
                span_entries(
                    final(self).scopes@,
                    final(self).meta.pid,
                    id,
                    SpanLifecycle::Start,
                    None,
                ),
            ),
    {
        let chain: Vec<u64> = match parent {
            Some(p) => {
                let pidx = match store_find(&self.scopes, p) {
                    Some(i) => i,
                    None => {
                        proof {
                            assert(false);
                        }
                        0
                    },
                };
                let mut c = copy_chain(&self.scopes[pidx].1.chain);
                c.push(id);
                c
            },
            None => {
                let mut c: Vec<u64> = Vec::new();
                c.push(id);
                proof {
                    assert(c@ =~= seq![id]);
                }
                c
            },
        };
        let data = ScopeData { meta, chain, fields: attrs, start: None };
        proof {
            lemma_store_push_scope(self.scopes@, id, data, parent);
        }
        self.scopes.push((id, data));
        JsonFormatter::format_span(&self.scopes, &self.meta, id, SpanLifecycle::Start, None)
    }

    /// Fields recorded on an existing scope: merge them into the scope's
    /// accumulator, later values winning over earlier ones.
    pub fn on_record(&mut self, id: u64, values: Visitor)
        requires
            old(self).wf(),
            store_has(old(self).scopes@, id),
            values.wf(),
        ensures
            final(self).wf(),
            final(self).meta == old(self).meta,
            store_has(final(self).scopes@, id),
            ({
                let d0 = sid_get(old(self).scopes@, id).unwrap();
                let d = sid_get(final(self).scopes@, id).unwrap();
                &&& d.fields@ == kv_merge(d0.fields@, values@)
                &&& d.meta == d0.meta
                &&& d.chain@ == d0.chain@
                &&& d.start == d0.start
            }),
            forall|q: u64|
                q != id ==> #[trigger] sid_get(final(self).scopes@, q) == sid_get(
                    old(self).scopes@,
                    q,
                ),
    {
        let idx = match store_find(&self.scopes, id) {
            Some(i) => i,
            None => {
                proof {
                    assert(false);
                }
                0
            },
        };
        let ghost s0 = self.scopes@;
        let (eid, mut data) = self.scopes.remove(idx);
        data.fields.merge_from(values);
        self.scopes.insert(idx, (eid, data));
        proof {
            assert(self.scopes@ =~= s0.update(idx as int, self.scopes@[idx as int]));
            lemma_store_update_same_chain(s0, idx as int, self.scopes@[idx as int].1);
        }
    }

    /// Scope entered: attach the timer timestamp only if none is attached
    /// yet, so re-entry never resets the start of the measured lifetime.
    pub fn on_enter(&mut self, id: u64, now_ns: u64)
        requires
            old(self).wf(),
            store_has(old(self).scopes@, id),
        ensures
            final(self).wf(),
            final(self).meta == old(self).meta,
            store_has(final(self).scopes@, id),
            ({
                let d0 = sid_get(old(self).scopes@, id).unwrap();
                let d = sid_get(final(self).scopes@, id).unwrap();
                &&& d.start == if d0.start is None {
                    Some(now_ns)
                } else {
                    d0.start
                }
                &&& d.fields@ == d0.fields@
                &&& d.meta == d0.meta
                &&& d.chain@ == d0.chain@
            }),
            forall|q: u64|
                q != id ==> #[trigger] sid_get(final(self).scopes@, q) == sid_get(
                    old(self).scopes@,
                    q,
                ),
    {
        let idx = match store_find(&self.scopes, id) {
            Some(i) => i,
            None => {
                proof {
                    assert(false);
                }
                0
            },
        };
        let ghost s0 = self.scopes@;
        let (eid, mut data) = self.scopes.remove(idx);
        if data.start.is_none() {
            data.start = Some(now_ns);
        }
        self.scopes.insert(idx, (eid, data));
        proof {
            assert(self.scopes@ =~= s0.update(idx as int, self.scopes@[idx as int]));
            lemma_store_update_same_chain(s0, idx as int, self.scopes@[idx as int].1);
        }
    }

    /// Event logged: return its record, carrying the fields of every scope
    /// enclosing the resolved scope (root first) and the event's own
    /// fields.
    pub fn on_event(&self, event: &EventData, current: Option<u64>) -> (line: String)
        requires
            self.wf(),
            event.fields.wf(),
            match current {
                Some(c) => store_has(self.scopes@, c),
                None => true,
            },
        ensures
            line@ == render_record(
                event_entries(
                    self.scopes@,
                    self.meta.pid,
                    event.meta,
                    event.fields@,
                    resolve_scope(self.scopes@, event.parent, current),
                ),
            ),
    {
        let scope: Option<u64> = match event.parent {
            Some(p) => if self.contains(p) {
                Some(p)
            } else {
                current
            },
            None => current,
        };
        JsonFormatter::format_event(&self.scopes, &self.meta, event, scope)
    }

    /// Scope closed: read the timer (its absence would be a host-contract
    /// violation), return the `end` record with the elapsed lifetime, and
    /// release the scope's auxiliary data — closing is terminal, and the
    /// host may hand the id to a new scope afterwards.
    pub fn on_close(&mut self, id: u64, now_ns: u64) -> (line: String)
        requires
            old(self).wf(),
            store_has(old(self).scopes@, id),
            scope_start(old(self).scopes@, id) is Some,
            !id_referenced(old(self).scopes@, id),
        ensures
            final(self).wf(),
            final(self).meta == old(self).meta,
            sid_get(final(self).scopes@, id) is None,
            forall|q: u64|
                q != id ==> #[trigger] sid_get(final(self).scopes@, q) == sid_get(
                    old(self).scopes@,
                    q,
                ),
            line@ == render_record(
                span_entries(
                    old(self).scopes@,
                    old(self).meta.pid,
                    id,
                    SpanLifecycle::End,
                    Some(
                        spec_elapsed_str(
                            scope_start(old(self).scopes@, id).unwrap(),
                            now_ns,
                        ),
                    ),
                ),
            ),
    {
        let idx = match store_find(&self.scopes, id) {
            Some(i) => i,
            None => {
                proof {
                    assert(false);
                }
                0
            },
        };
        let start_t = match self.scopes[idx].1.start {
            Some(t) => t,
            None => {
                proof {
                    assert(false);
                }
                0
            },
        };
        let ns: u64 = if now_ns >= start_t {
            now_ns - start_t
        } else {
            0
        };
        let elapsed = format_duration(ns / 1_000_000_000, (ns % 1_000_000_000) as u32);
        proof {
            assert(elapsed@ == spec_elapsed_str(start_t, now_ns));
        }
        let line = JsonFormatter::format_span(
            &self.scopes,
            &self.meta,
            id,
            SpanLifecycle::End,
            Some(&elapsed),
        );
        let ghost s0 = self.scopes@;
        proof {
            lemma_store_remove(s0, idx as int);
        }
        self.scopes.remove(idx);
        proof {
            assert(self.scopes@ =~= s0.remove(idx as int));
        }
        line
    }

    /// Cross-context lookup: the value recorded under `key` on the scope
    /// `current` or the nearest of its ancestors that has one.
    pub fn get_stored(&self, current: u64, key: &str) -> (r: Option<&FieldValue>)
        requires
            self.wf(),
            store_has(self.scopes@, current),
        ensures
            match r {
                Some(v) => nearest_lookup(
                    self.scopes@,
                    scope_chain(self.scopes@, current),
                    key@,
                ) == Some(v@),
                None => nearest_lookup(
                    self.scopes@,
                    scope_chain(self.scopes@, current),
                    key@,
                ) is None,
            },
    {
        let idx = match store_find(&self.scopes, current) {
            Some(i) => i,
            None => {
                proof {
                    assert(false);
                }
                0
            },
        };
        proof {
            lemma_store_wf_get(self.scopes@, current);
        }
        let chain = &self.scopes[idx].1.chain;
        let mut j: usize = chain.len();
        while j > 0
            invariant
                0 <= j <= chain@.len(),
                self.wf(),
                store_has(self.scopes@, current),
                chain@ == scope_chain(self.scopes@, current),
                forall|t: int| 0 <= t < chain@.len() ==> store_has(self.scopes@, #[trigger] chain@[t]),
                nearest_lookup(self.scopes@, scope_chain(self.scopes@, current), key@)
                    == nearest_lookup(self.scopes@, chain@.take(j as int), key@),
            decreases j,
        {
            let cid = chain[j - 1];
            let cidx = match store_find(&self.scopes, cid) {
                Some(i) => i,
                None => {
                    proof {
                        assert(false);
                    }
                    0
                },
            };
            let ghost part = chain@.take(j as int);
            proof {
                assert(part.last() == chain@[j as int - 1]);
            }
            match self.scopes[cidx].1.fields.get(key) {
                Some(v) => {
                    return Some(v);
                },
                None => {
                    proof {
                        assert(part.drop_last() =~= chain@.take(j as int - 1));
                    }
                    j = j - 1;
                },
            }
        }
        proof {
            assert(chain@.take(0) =~= Seq::<u64>::empty());
        }
        None
    }
}

} // verus!
