//! The children-diff reconciliation engine.
//!
//! The engine owns the authoritative keyed map (`mutable`), the set of
//! materialized child nodes (`items`, keyed identically, each entry holding
//! an opaque node handle), and the per-batch bookkeeping that coalesces
//! change notifications (`unprocessed`).  Mutations are recorded as queued
//! diff events; [`ChildrenDiff::process_pending`] applies the whole queue in
//! order, run-to-completion, and returns the exact sequence of callback
//! invocations the host must perform: create a child, remove a child, report
//! an in-place update, or report that a batch of changes is complete.
//!
//! The map is the single source of truth: queued events carry keys only, and
//! values are always read from the map itself.  Values are stored directly
//! and replaced whole on update (rather than through a mutable cell per
//! key): [`ChildrenDiff::upsert`] silently overwrites, in-place transforms
//! go through [`ChildrenDiff::update_with`], and the bulk
//! [`ChildrenDiff::clear`] and [`ChildrenDiff::replace`] operations are
//! supported.

use vstd::prelude::*;

use crate::key::DiffKey;
use crate::keyed_map::KeyedMap;
use crate::keyed_map::entry_keys;
use crate::keyed_map::has_key;
use crate::keyed_map::key_lt;
use crate::keyed_map::key_views;
use crate::keyed_map::keys_insert;
use crate::keyed_map::keys_remove;
use crate::keyed_map::lemma_has_key_contains;
use crate::keyed_map::lemma_insert_after_remove;
use crate::keyed_map::lemma_keys_insert_contains;
use crate::keyed_map::lemma_keys_insert_present;
use crate::keyed_map::map_build;
use crate::keyed_map::pair_views;
use crate::keyed_map::lemma_keys_remove_contains;
use crate::keyed_map::lemma_keys_remove_distinct;
use crate::keyed_map::lemma_keys_remove_gone;
use crate::keyed_map::lemma_keys_remove_keeps;
use crate::keyed_map::seq_distinct;
use crate::keyed_map::lemma_map_insert_props;
use crate::keyed_map::lemma_map_remove_props;
use crate::keyed_map::lookup;
use crate::keyed_map::map_insert;
use crate::keyed_map::map_remove;
use crate::keyed_map::sorted_distinct;

verus! {

/// A queued diff event, describing one incremental change to the map.
///
/// Events carry keys only; the current value for a key is read from the map
/// when the event is applied.
pub enum DiffEvent<K> {
    Insert { key: K },
    Update { key: K },
    Remove { key: K },
    Clear,
    Replace { keys: Vec<K> },
}

/// The view of a queued diff event: the same shape over key views.
pub enum DiffEventView<KV> {
    Insert { key: KV },
    Update { key: KV },
    Remove { key: KV },
    Clear,
    Replace { keys: Seq<KV> },
}

impl<K: DiffKey> View for DiffEvent<K> {
    type V = DiffEventView<<K as View>::V>;

    open spec fn view(&self) -> DiffEventView<<K as View>::V> {
        match self {
            DiffEvent::Insert { key } => DiffEventView::Insert { key: key@ },
            DiffEvent::Update { key } => DiffEventView::Update { key: key@ },
            DiffEvent::Remove { key } => DiffEventView::Remove { key: key@ },
            DiffEvent::Clear => DiffEventView::Clear,
            DiffEvent::Replace { keys } => DiffEventView::Replace { keys: key_views::<K>(keys@) },
        }
    }
}

/// One callback invocation owed to the host after applying a diff event.
pub enum ChildCall<K> {
    /// Construct and attach a child node for `key` under handle `node`.
    CreateChild { key: K, node: u64 },
    /// Detach and destroy the child node held for `key` under handle `node`.
    RemoveChild { key: K, node: u64 },
    /// Report an in-place value update for the child of `key`.
    UpdateChild { key: K },
    /// Report that a whole batch of changes has been applied.
    Changed,
}

/// The view of a callback invocation.
pub enum ChildCallView<KV> {
    CreateChild { key: KV, node: u64 },
    RemoveChild { key: KV, node: u64 },
    UpdateChild { key: KV },
    Changed,
}

impl<K: DiffKey> View for ChildCall<K> {
    type V = ChildCallView<<K as View>::V>;

    open spec fn view(&self) -> ChildCallView<<K as View>::V> {
        match self {
            ChildCall::CreateChild { key, node } => ChildCallView::CreateChild {
                key: key@,
                node: *node,
            },
            ChildCall::RemoveChild { key, node } => ChildCallView::RemoveChild {
                key: key@,
                node: *node,
            },
            ChildCall::UpdateChild { key } => ChildCallView::UpdateChild { key: key@ },
            ChildCall::Changed => ChildCallView::Changed,
        }
    }
}

/// The views of a vector of callback invocations, in order.
pub open spec fn calls_view<K: DiffKey>(cs: Seq<ChildCall<K>>) -> Seq<ChildCallView<<K as View>::V>> {
    cs.map_values(|c: ChildCall<K>| c@)
}

/// Node-handle allocation: handles count up and stick at the largest value
/// once it is reached.
pub open spec fn sat_add(a: u64, b: int) -> u64 {
    if a + b <= u64::MAX {
        (a + b) as u64
    } else {
        u64::MAX
    }
}

/// The effect of one diff event on a sequence of item keys, or `None` where
/// the event removes a key that holds no materialized node.
pub open spec fn step_keys<K: DiffKey>(
    ks: Seq<<K as View>::V>,
    ev: DiffEventView<<K as View>::V>,
) -> Option<Seq<<K as View>::V>> {
    match ev {
        DiffEventView::Insert { key } => Some(keys_insert::<K>(ks, key)),
        DiffEventView::Update { key } => Some(ks),
        DiffEventView::Remove { key } => if ks.contains(key) {
            Some(keys_remove(ks, key))
        } else {
            None
        },
        DiffEventView::Clear => Some(Seq::empty()),
        DiffEventView::Replace { keys } => Some(keys),
    }
}

/// The item keys reached by applying `evs` in order, starting from `ks`.
pub open spec fn run_keys<K: DiffKey>(
    ks: Seq<<K as View>::V>,
    evs: Seq<DiffEventView<<K as View>::V>>,
) -> Option<Seq<<K as View>::V>>
    decreases evs.len(),
{
    if evs.len() == 0 {
        Some(ks)
    } else {
        match step_keys::<K>(ks, evs[0]) {
            Some(ks2) => run_keys::<K>(ks2, evs.drop_first()),
            None => None,
        }
    }
}

/// Whether `ev` is a key-level event on `k`.
pub open spec fn is_key_event_on<KV>(ev: DiffEventView<KV>, k: KV) -> bool {
    ||| ev matches DiffEventView::Insert { key } && key == k
    ||| ev matches DiffEventView::Update { key } && key == k
    ||| ev matches DiffEventView::Remove { key } && key == k
}

/// Whether `ev` rebuilds the whole item set.
pub open spec fn is_bulk_event<KV>(ev: DiffEventView<KV>) -> bool {
    ev is Clear || ev is Replace
}

/// Every unprocessed key is still backed by a queued event that will strike
/// it off: a key-level event on that key, or a bulk event.
pub open spec fn unproc_covered<KV>(unp: Seq<KV>, evs: Seq<DiffEventView<KV>>) -> bool {
    forall|k: KV|
        #[trigger] unp.contains(k) ==> exists|i: int|
            0 <= i < evs.len() && (is_key_event_on(#[trigger] evs[i], k) || is_bulk_event(evs[i]))
}

/// Every queued replacement carries a strictly sorted key list.
pub open spec fn replace_keys_sorted<K: DiffKey>(evs: Seq<DiffEventView<<K as View>::V>>) -> bool {
    forall|i: int|
        0 <= i < evs.len() ==> (#[trigger] evs[i] matches DiffEventView::Replace { keys }
            ==> sorted_distinct::<K>(keys))
}

/// The processing state threaded through the queue: the materialized items,
/// the keys of the current batch not yet acknowledged, and the next node
/// handle to hand out.
#[verifier::ext_equal]
pub struct ProcState<KV> {
    pub items: Seq<(KV, u64)>,
    pub unproc: Seq<KV>,
    pub next: u64,
}

/// Removal calls for every item, in item (key) order.
pub open spec fn removal_calls<KV>(items: Seq<(KV, u64)>) -> Seq<ChildCallView<KV>> {
    items.map_values(|p: (KV, u64)| ChildCallView::RemoveChild { key: p.0, node: p.1 })
}

/// Creation calls for the keys `ks`, handing out handles from `next` on.
pub open spec fn creation_calls<KV>(ks: Seq<KV>, next: u64) -> Seq<ChildCallView<KV>> {
    Seq::new(ks.len(), |i: int| ChildCallView::CreateChild { key: ks[i], node: sat_add(next, i) })
}

/// The items materialized for the keys `ks`, handles from `next` on.
pub open spec fn items_from<KV>(ks: Seq<KV>, next: u64) -> Seq<(KV, u64)> {
    Seq::new(ks.len(), |i: int| (ks[i], sat_add(next, i)))
}

/// A change notification exactly when the batch has emptied.
pub open spec fn changed_if<KV>(unp: Seq<KV>) -> Seq<ChildCallView<KV>> {
    if unp.len() == 0 {
        seq![ChildCallView::Changed]
    } else {
        Seq::empty()
    }
}

/// The state after applying one diff event.
pub open spec fn step_state<K: DiffKey>(
    st: ProcState<<K as View>::V>,
    ev: DiffEventView<<K as View>::V>,
) -> ProcState<<K as View>::V> {
    match ev {
        DiffEventView::Insert { key } => ProcState {
            items: map_insert::<K, u64>(st.items, key, st.next),
            unproc: keys_remove(st.unproc, key),
            next: sat_add(st.next, 1),
        },
        DiffEventView::Update { key } => ProcState {
            items: st.items,
            unproc: keys_remove(st.unproc, key),
            next: st.next,
        },
        DiffEventView::Remove { key } => ProcState {
            items: map_remove(st.items, key),
            unproc: keys_remove(st.unproc, key),
            next: st.next,
        },
        DiffEventView::Clear => ProcState { items: Seq::empty(), unproc: Seq::empty(), next: st.next },
        DiffEventView::Replace { keys } => ProcState {
            items: items_from(keys, st.next),
            unproc: Seq::empty(),
            next: sat_add(st.next, keys.len() as int),
        },
    }
}

/// The callback invocations owed for one diff event.
pub open spec fn step_out<K: DiffKey>(
    st: ProcState<<K as View>::V>,
    ev: DiffEventView<<K as View>::V>,
) -> Seq<ChildCallView<<K as View>::V>> {
    match ev {
        DiffEventView::Insert { key } => seq![
            ChildCallView::CreateChild { key, node: st.next },
        ] + changed_if(keys_remove(st.unproc, key)),
        DiffEventView::Update { key } => seq![ChildCallView::UpdateChild { key }] + changed_if(
            keys_remove(st.unproc, key),
        ),
        DiffEventView::Remove { key } => seq![
            ChildCallView::RemoveChild { key, node: lookup(st.items, key).unwrap() },
        ] + changed_if(keys_remove(st.unproc, key)),
        DiffEventView::Clear => removal_calls(st.items) + seq![ChildCallView::Changed],
        DiffEventView::Replace { keys } => removal_calls(st.items) + creation_calls(keys, st.next)
            + seq![ChildCallView::Changed],
    }
}

/// The state after applying a whole queue of diff events.
pub open spec fn run_state<K: DiffKey>(
    st: ProcState<<K as View>::V>,
    evs: Seq<DiffEventView<<K as View>::V>>,
) -> ProcState<<K as View>::V>
    decreases evs.len(),
{
    if evs.len() == 0 {
        st
    } else {
        run_state::<K>(step_state::<K>(st, evs[0]), evs.drop_first())
    }
}

/// The callback invocations owed for a whole queue of diff events.
pub open spec fn run_out<K: DiffKey>(
    st: ProcState<<K as View>::V>,
    evs: Seq<DiffEventView<<K as View>::V>>,
) -> Seq<ChildCallView<<K as View>::V>>
    decreases evs.len(),
{
    if evs.len() == 0 {
        Seq::empty()
    } else {
        step_out::<K>(st, evs[0]) + run_out::<K>(step_state::<K>(st, evs[0]), evs.drop_first())
    }
}

/// The reconciliation engine.
pub struct ChildrenDiff<K: DiffKey, V> {
    /// The authoritative keyed map being updated and watched.
    mutable: KeyedMap<K, V>,
    /// Node handles of the materialized children, keyed as the map is.
    items: KeyedMap<K, u64>,
    /// Keys of the current batch whose events are queued but not yet applied;
    /// used purely to fire one change notification per batch.
    unprocessed: KeyedMap<K, ()>,
    /// Diff events recorded by mutations and not yet applied.
    pending: Vec<DiffEvent<K>>,
    /// Next node handle to hand out.
    next_node: u64,
}

impl<K: DiffKey, V> ChildrenDiff<K, V> {
    /// The entries of the authoritative map, in key order.
    pub closed spec fn map_entries(&self) -> Seq<(<K as View>::V, V)> {
        self.mutable@
    }

    /// The materialized items: key and node handle, in key order.
    pub closed spec fn item_entries(&self) -> Seq<(<K as View>::V, u64)> {
        self.items@
    }

    /// The keys of the current batch not yet acknowledged.
    pub closed spec fn unprocessed_keys(&self) -> Seq<<K as View>::V> {
        entry_keys(self.unprocessed@)
    }

    /// The queued diff events, oldest first.
    pub closed spec fn pending_events(&self) -> Seq<DiffEventView<<K as View>::V>> {
        self.pending@.map_values(|e: DiffEvent<K>| e@)
    }

    /// The next node handle to be handed out.
    pub closed spec fn fresh_node(&self) -> u64 {
        self.next_node
    }

    /// The processing state of the engine, as threaded by the model.
    pub open spec fn proc_state(&self) -> ProcState<<K as View>::V> {
        ProcState {
            items: self.item_entries(),
            unproc: self.unprocessed_keys(),
            next: self.fresh_node(),
        }
    }

    /// Engine invariant: the three collections are well formed, replaying
    /// the queued events over the item keys reaches exactly the map keys,
    /// queued replacements are sorted, and every unprocessed key is still
    /// backed by a queued event.
    pub closed spec fn wf(&self) -> bool {
        &&& self.mutable.wf()
        &&& self.items.wf()
        &&& self.unprocessed.wf()
        &&& run_keys::<K>(entry_keys(self.items@), self.pending_events()) == Some(
            entry_keys(self.mutable@),
        )
        &&& replace_keys_sorted::<K>(self.pending_events())
        &&& unproc_covered(entry_keys(self.unprocessed@), self.pending_events())
    }

    /// A fresh engine: empty map, no items, nothing queued.
    pub fn new() -> (r: Self)
        ensures
            r.wf(),
            r.map_entries() == Seq::<(<K as View>::V, V)>::empty(),
            r.item_entries() == Seq::<(<K as View>::V, u64)>::empty(),
            r.unprocessed_keys() == Seq::<<K as View>::V>::empty(),
            r.pending_events() == Seq::<DiffEventView<<K as View>::V>>::empty(),
            r.fresh_node() == 0,
    {
        let r = ChildrenDiff {
            mutable: KeyedMap::new(),
            items: KeyedMap::new(),
            unprocessed: KeyedMap::new(),
            pending: Vec::new(),
            next_node: 0,
        };
        proof {
            assert(r.pending_events() =~= Seq::<DiffEventView<<K as View>::V>>::empty());
            assert(r.unprocessed_keys() =~= Seq::<<K as View>::V>::empty());
            assert(entry_keys(r.items@) =~= Seq::<<K as View>::V>::empty());
            assert(entry_keys(r.mutable@) =~= Seq::<<K as View>::V>::empty());
        }
        r
    }

    /// Number of entries in the map.
    pub fn len(&self) -> (r: usize)
        ensures
            r == self.map_entries().len(),
    {
        self.mutable.len()
    }

    /// Read access to the value stored for `key`.
    pub fn get(&self, key: &K) -> (r: Option<&V>)
        requires
            self.wf(),
        ensures
            match r {
                Some(v) => lookup(self.map_entries(), key@) == Some(*v),
                None => lookup(self.map_entries(), key@) is None,
            },
    {
        self.mutable.get(key)
    }

    /// Whether `key` is present in the map.
    pub fn contains_key(&self, key: &K) -> (r: bool)
        requires
            self.wf(),
        ensures
            r == has_key(self.map_entries(), key@),
    {
        self.mutable.contains_key(key)
    }

    /// The keys of the map, in key order.
    pub fn keys(&self) -> (r: Vec<K>)
        requires
            self.wf(),
        ensures
            key_views::<K>(r@) == entry_keys(self.map_entries()),
            sorted_distinct::<K>(entry_keys(self.map_entries())),
    {
        self.mutable.keys()
    }

    /// The keys of the materialized items, in key order.
    pub fn items_keys(&self) -> (r: Vec<K>)
        requires
            self.wf(),
        ensures
            key_views::<K>(r@) == entry_keys(self.item_entries()),
            sorted_distinct::<K>(entry_keys(self.item_entries())),
    {
        self.items.keys()
    }

    /// The node handle materialized for `key`, if any.
    pub fn node_of(&self, key: &K) -> (r: Option<u64>)
        requires
            self.wf(),
        ensures
            match r {
                Some(n) => lookup(self.item_entries(), key@) == Some(n),
                None => lookup(self.item_entries(), key@) is None,
            },
    {
        match self.items.get(key) {
            Some(n) => Some(*n),
            None => None,
        }
    }

    /// Number of queued, still unapplied diff events.
    pub fn pending_len(&self) -> (r: usize)
        ensures
            r == self.pending_events().len(),
    {
        self.pending.len()
    }
}

impl<K: DiffKey, V> ChildrenDiff<K, V> {
    /// Insert `value` under `key`, or replace the value already stored
    /// there.  Queues an insert or update event and marks the key
    /// unprocessed.
    pub fn upsert(&mut self, key: K, value: V)
        requires
            old(self).wf(),
        ensures
            final(self).wf(),
            final(self).map_entries() == map_insert::<K, V>(old(self).map_entries(), key@, value),
            final(self).item_entries() == old(self).item_entries(),
            final(self).fresh_node() == old(self).fresh_node(),
            final(self).unprocessed_keys() == keys_insert::<K>(
                old(self).unprocessed_keys(),
                key@,
            ),
            has_key(old(self).map_entries(), key@) ==> final(self).pending_events() == old(self).pending_events() + seq![(DiffEventView::Update { key: key@ })],
            !has_key(old(self).map_entries(), key@) ==> final(self).pending_events() == old(self).pending_events() + seq![(DiffEventView::Insert { key: key@ })],
    {
        let ghost kv = key@;
        let ghost old_pe = self.pending_events();
        let ghost old_unp = entry_keys(self.unprocessed@);
        let ghost old_map = self.mutable@;
        proof {
            lemma_map_insert_props::<K, V>(self.mutable@, kv, value);
            lemma_map_insert_props::<K, ()>(self.unprocessed@, kv, ());
        }
        let existed = self.mutable.insert(key.key_dup(), value);
        let ev = if existed {
            DiffEvent::Update { key: key.key_dup() }
        } else {
            DiffEvent::Insert { key: key.key_dup() }
        };
        self.pending.push(ev);
        self.unprocessed.insert(key, ());
        proof {
            let evv: DiffEventView<<K as View>::V> = if existed {
                DiffEventView::Update { key: kv }
            } else {
                DiffEventView::Insert { key: kv }
            };
            assert(self.pending_events() =~= old_pe + seq![evv]);
            lemma_has_key_contains(old_map, kv);
            if existed {
                lemma_keys_insert_present::<K>(entry_keys(old_map), kv);
            }
            assert(step_keys::<K>(entry_keys(old_map), evv) == Some(entry_keys(self.mutable@)));
            self.lemma_wf_after_key_event(*old(self), old_pe, old_unp, evv, kv);
        }
    }

    /// Apply `f` to the value stored for `key`; a no-op when the key is
    /// absent.  Returns whether the update was applied.
    pub fn update_with<F: FnOnce(V) -> V>(&mut self, key: &K, f: F) -> (applied: bool)
        requires
            old(self).wf(),
            forall|v: V|
                lookup(old(self).map_entries(), key@) == Some(v) ==> call_requires(f, (v,)),
        ensures
            final(self).wf(),
            applied == has_key(old(self).map_entries(), key@),
            final(self).item_entries() == old(self).item_entries(),
            final(self).fresh_node() == old(self).fresh_node(),
            !applied ==> final(self).map_entries() == old(self).map_entries() && final(self).pending_events() == old(self).pending_events() && final(self).unprocessed_keys()
                == old(self).unprocessed_keys(),
            applied ==> exists|nv: V|
                #[trigger] call_ensures(f, (lookup(old(self).map_entries(), key@).unwrap(),), nv)
                    && final(self).map_entries() == map_insert::<K, V>(
                    old(self).map_entries(),
                    key@,
                    nv,
                ),
            applied ==> final(self).pending_events() == old(self).pending_events() + seq![
                (DiffEventView::Update { key: key@ }),
            ],
            applied ==> final(self).unprocessed_keys() == keys_insert::<K>(
                old(self).unprocessed_keys(),
                key@,
            ),
    {
        let ghost kv = key@;
        let ghost old_pe = self.pending_events();
        let ghost old_unp = entry_keys(self.unprocessed@);
        let ghost old_map = self.mutable@;
        match self.mutable.remove(key) {
            None => {
                proof {
                    crate::keyed_map::lemma_remove_absent(old_map, kv);
                }
                false
            },
            Some(v) => {
                let nv = f(v);
                proof {
                    lemma_map_insert_props::<K, V>(self.mutable@, kv, nv);
                    lemma_map_insert_props::<K, ()>(self.unprocessed@, kv, ());
                    lemma_insert_after_remove::<K, V>(old_map, kv, nv);
                }
                self.mutable.insert(key.key_dup(), nv);
                self.pending.push(DiffEvent::Update { key: key.key_dup() });
                self.unprocessed.insert(key.key_dup(), ());
                proof {
                    let evv = DiffEventView::<<K as View>::V>::Update { key: kv };
                    assert(self.pending_events() =~= old_pe + seq![evv]);
                    lemma_map_insert_props::<K, V>(old_map, kv, nv);
                    lemma_has_key_contains(old_map, kv);
                    lemma_keys_insert_present::<K>(entry_keys(old_map), kv);
                    assert(step_keys::<K>(entry_keys(old_map), evv) == Some(
                        entry_keys(self.mutable@),
                    ));
                    self.lemma_wf_after_key_event(*old(self), old_pe, old_unp, evv, kv);
                }
                true
            },
        }
    }

    /// Delete the entry stored under `key`; a warning-free no-op when the
    /// key is absent.
    pub fn remove(&mut self, key: &K)
        requires
            old(self).wf(),
        ensures
            final(self).wf(),
            final(self).map_entries() == map_remove(old(self).map_entries(), key@),
            final(self).item_entries() == old(self).item_entries(),
            final(self).fresh_node() == old(self).fresh_node(),
            !has_key(old(self).map_entries(), key@) ==> final(self).map_entries() == old(self).map_entries() && final(self).pending_events() == old(self).pending_events() && final(self).unprocessed_keys() == old(self).unprocessed_keys(),
            has_key(old(self).map_entries(), key@) ==> final(self).pending_events() == old(self).pending_events() + seq![(DiffEventView::Remove { key: key@ })],
            has_key(old(self).map_entries(), key@) ==> final(self).unprocessed_keys()
                == keys_insert::<K>(old(self).unprocessed_keys(), key@),
    {
        let ghost kv = key@;
        let ghost old_pe = self.pending_events();
        let ghost old_unp = entry_keys(self.unprocessed@);
        let ghost old_map = self.mutable@;
        match self.mutable.remove(key) {
            None => {
                proof {
                    crate::keyed_map::lemma_remove_absent(old_map, kv);
                }
            },
            Some(_dropped) => {
                proof {
                    lemma_map_insert_props::<K, ()>(self.unprocessed@, kv, ());
                    lemma_map_remove_props::<K, V>(old_map, kv);
                    lemma_has_key_contains(old_map, kv);
                }
                self.pending.push(DiffEvent::Remove { key: key.key_dup() });
                self.unprocessed.insert(key.key_dup(), ());
                proof {
                    let evv = DiffEventView::<<K as View>::V>::Remove { key: kv };
                    assert(self.pending_events() =~= old_pe + seq![evv]);
                    assert(entry_keys(old_map).contains(kv));
                    assert(step_keys::<K>(entry_keys(old_map), evv) == Some(
                        entry_keys(self.mutable@),
                    ));
                    self.lemma_wf_after_key_event(*old(self), old_pe, old_unp, evv, kv);
                }
            },
        }
    }

    /// Empty the map in one atomic operation.  Queues a single clear event
    /// when the map held anything.
    pub fn clear(&mut self)
        requires
            old(self).wf(),
        ensures
            final(self).wf(),
            final(self).map_entries() == Seq::<(<K as View>::V, V)>::empty(),
            final(self).item_entries() == old(self).item_entries(),
            final(self).fresh_node() == old(self).fresh_node(),
            final(self).unprocessed_keys() == old(self).unprocessed_keys(),
            old(self).map_entries().len() == 0 ==> final(self).pending_events() == old(self).pending_events(),
            old(self).map_entries().len() > 0 ==> final(self).pending_events() == old(self).pending_events() + seq![(DiffEventView::Clear)],
    {
        let ghost old_pe = self.pending_events();
        let ghost old_unp = entry_keys(self.unprocessed@);
        if self.mutable.is_empty() {
            proof {
                assert(self.mutable@ =~= Seq::<(<K as View>::V, V)>::empty());
            }
        } else {
            self.mutable.clear();
            self.pending.push(DiffEvent::Clear);
            proof {
                let evv = DiffEventView::<<K as View>::V>::Clear;
                assert(self.pending_events() =~= old_pe + seq![evv]);
                lemma_run_keys_snoc::<K>(entry_keys(old(self).items@), old_pe, evv);
                assert(entry_keys(self.mutable@) =~= Seq::<<K as View>::V>::empty());
                assert(replace_keys_sorted::<K>(self.pending_events())) by {
                    assert(forall|i: int|
                        0 <= i < old_pe.len() ==> self.pending_events()[i] == old_pe[i]);
                }
                assert(unproc_covered(old_unp, self.pending_events())) by {
                    assert forall|k2: <K as View>::V| old_unp.contains(k2) implies exists|i: int|
                        0 <= i < self.pending_events().len() && (is_key_event_on(
                            #[trigger] self.pending_events()[i],
                            k2,
                        ) || is_bulk_event(self.pending_events()[i])) by {
                        let i = old_pe.len() as int;
                        assert(self.pending_events()[i] == evv);
                        assert(is_bulk_event(self.pending_events()[i]));
                    }
                }
            }
        }
    }

    /// Swap the whole contents of the map for the given entries, later
    /// entries overriding earlier ones with the same key.  Queues a single
    /// replace event carrying the new key set.
    pub fn replace(&mut self, entries: Vec<(K, V)>)
        requires
            old(self).wf(),
        ensures
            final(self).wf(),
            final(self).map_entries() == map_build::<K, V>(pair_views::<K, V>(entries@)),
            final(self).item_entries() == old(self).item_entries(),
            final(self).fresh_node() == old(self).fresh_node(),
            final(self).unprocessed_keys() == old(self).unprocessed_keys(),
            final(self).pending_events() == old(self).pending_events() + seq![
                (DiffEventView::Replace { keys: entry_keys(final(self).map_entries()) }),
            ],
    {
        let ghost old_pe = self.pending_events();
        let ghost old_unp = entry_keys(self.unprocessed@);
        let ghost all = pair_views::<K, V>(entries@);
        let mut rest = entries;
        let mut fresh: KeyedMap<K, V> = KeyedMap::new();
        let ghost mut consumed: int = 0;
        proof {
            assert(all.subrange(0, 0) =~= Seq::<(<K as View>::V, V)>::empty());
            assert(fresh@ =~= map_build::<K, V>(all.subrange(0, 0)));
        }
        while rest.len() > 0
            invariant
                fresh.wf(),
                0 <= consumed <= all.len(),
                rest@.len() == all.len() - consumed,
                forall|j: int|
                    0 <= j < rest@.len() ==> (#[trigger] rest@[j].0@, rest@[j].1) == all[consumed
                        + j],
                fresh@ == map_build::<K, V>(all.subrange(0, consumed)),
            decreases rest@.len(),
        {
            let (k, v) = rest.remove(0);
            fresh.insert(k, v);
            proof {
                consumed = consumed + 1;
                assert(all.subrange(0, consumed).drop_last() =~= all.subrange(0, consumed - 1));
                assert(all.subrange(0, consumed).last() == all[consumed - 1]);
            }
        }
        proof {
            assert(all.subrange(0, all.len() as int) =~= all);
        }
        let ks = fresh.keys();
        let ghost kvs = key_views::<K>(ks@);
        self.mutable = fresh;
        self.pending.push(DiffEvent::Replace { keys: ks });
        proof {
            let evv = DiffEventView::<<K as View>::V>::Replace { keys: kvs };
            assert(self.pending_events() =~= old_pe + seq![evv]);
            lemma_run_keys_snoc::<K>(entry_keys(old(self).items@), old_pe, evv);
            assert(replace_keys_sorted::<K>(self.pending_events())) by {
                assert(forall|i: int|
                    0 <= i < old_pe.len() ==> self.pending_events()[i] == old_pe[i]);
                assert(sorted_distinct::<K>(kvs));
            }
            assert(unproc_covered(old_unp, self.pending_events())) by {
                assert forall|k2: <K as View>::V| old_unp.contains(k2) implies exists|i: int|
                    0 <= i < self.pending_events().len() && (is_key_event_on(
                        #[trigger] self.pending_events()[i],
                        k2,
                    ) || is_bulk_event(self.pending_events()[i])) by {
                    let i = old_pe.len() as int;
                    assert(self.pending_events()[i] == evv);
                    assert(is_bulk_event(self.pending_events()[i]));
                }
            }
        }
    }

    /// Shared invariant-maintenance argument for the three key-level
    /// mutations: a key event on `kv` was appended and `kv` was marked
    /// unprocessed.
    proof fn lemma_wf_after_key_event(
        &self,
        prior: Self,
        old_pe: Seq<DiffEventView<<K as View>::V>>,
        old_unp: Seq<<K as View>::V>,
        evv: DiffEventView<<K as View>::V>,
        kv: <K as View>::V,
    )
        requires
            prior.wf(),
            old_pe == prior.pending_events(),
            old_unp == prior.unprocessed_keys(),
            is_key_event_on(evv, kv),
            self.pending_events() == old_pe + seq![evv],
            self.unprocessed_keys() == keys_insert::<K>(old_unp, kv),
            self.mutable.wf(),
            self.items.wf(),
            self.unprocessed.wf(),
            self.items@ == prior.items@,
            step_keys::<K>(entry_keys(prior.mutable@), evv) == Some(entry_keys(self.mutable@)),
        ensures
            self.wf(),
    {
        lemma_run_keys_snoc::<K>(entry_keys(self.items@), old_pe, evv);
        assert(run_keys::<K>(entry_keys(self.items@), self.pending_events()) == Some(
            entry_keys(self.mutable@),
        ));
        assert(replace_keys_sorted::<K>(self.pending_events())) by {
            assert(forall|i: int|
                0 <= i < old_pe.len() ==> self.pending_events()[i] == old_pe[i]);
            assert(self.pending_events()[old_pe.len() as int] == evv);
        }
        assert(unproc_covered(entry_keys(self.unprocessed@), self.pending_events())) by {
            assert forall|k2: <K as View>::V|
                entry_keys(self.unprocessed@).contains(k2) implies exists|i: int|
                0 <= i < self.pending_events().len() && (is_key_event_on(
                    #[trigger] self.pending_events()[i],
                    k2,
                ) || is_bulk_event(self.pending_events()[i])) by {
                lemma_keys_insert_contains::<K>(old_unp, kv, k2);
                if k2 == kv {
                    let i = old_pe.len() as int;
                    assert(self.pending_events()[i] == evv);
                    assert(is_key_event_on(self.pending_events()[i], k2));
                } else {
                    assert(old_unp.contains(k2));
                    let i = choose|i: int|
                        0 <= i < old_pe.len() && (is_key_event_on(#[trigger] old_pe[i], k2)
                            || is_bulk_event(old_pe[i]));
                    assert(self.pending_events()[i] == old_pe[i]);
                }
            }
        }
    }
}

impl<K: DiffKey, V> ChildrenDiff<K, V> {
    /// Apply every queued diff event, in order and run-to-completion, and
    /// return the callback invocations owed to the host: node creations and
    /// removals, in-place update notices, and one change notice per batch.
    ///
    /// Afterwards the materialized items are in lock-step with the map:
    /// they hold exactly the map's keys, in the same (key) order.
    pub fn process_pending(&mut self) -> (out: Vec<ChildCall<K>>)
        requires
            old(self).wf(),
        ensures
            final(self).wf(),
            final(self).map_entries() == old(self).map_entries(),
            final(self).pending_events() == Seq::<DiffEventView<<K as View>::V>>::empty(),
            final(self).unprocessed_keys() == Seq::<<K as View>::V>::empty(),
            entry_keys(final(self).item_entries()) == entry_keys(final(self).map_entries()),
            final(self).proc_state() == run_state::<K>(
                old(self).proc_state(),
                old(self).pending_events(),
            ),
            calls_view(out@) == run_out::<K>(old(self).proc_state(), old(self).pending_events()),
    {
        let ghost start_st = self.proc_state();
        let ghost start_evs = self.pending_events();
        let mut out: Vec<ChildCall<K>> = Vec::new();
        proof {
            assert(calls_view::<K>(out@) =~= Seq::<ChildCallView<<K as View>::V>>::empty());
            assert(calls_view::<K>(out@) + run_out::<K>(start_st, start_evs) =~= run_out::<K>(
                start_st,
                start_evs,
            ));
        }
        while self.pending.len() > 0
            invariant
                self.wf(),
                self.mutable@ == old(self).mutable@,
                run_state::<K>(self.proc_state(), self.pending_events()) == run_state::<K>(
                    start_st,
                    start_evs,
                ),
                calls_view(out@) + run_out::<K>(self.proc_state(), self.pending_events())
                    == run_out::<K>(start_st, start_evs),
            decreases self.pending@.len(),
        {
            let ghost pre_st = self.proc_state();
            let ghost pre_evs = self.pending_events();
            let ghost pre_out = calls_view(out@);
            let ev = self.pending.remove(0);
            proof {
                assert(ev@ == pre_evs[0]);
                assert(self.pending_events() =~= pre_evs.drop_first());
            }
            match ev {
                DiffEvent::Insert { key } => {
                    let ghost kv = key@;
                    let node = self.next_node;
                    self.next_node = if self.next_node < u64::MAX {
                        self.next_node + 1
                    } else {
                        u64::MAX
                    };
                    proof {
                        lemma_map_remove_props::<K, ()>(self.unprocessed@, kv);
                        lemma_map_insert_props::<K, u64>(self.items@, kv, node);
                        lemma_has_key_contains(self.unprocessed@, kv);
                    }
                    self.unprocessed.remove(&key);
                    out.push(ChildCall::CreateChild { key: key.key_dup(), node });
                    self.items.insert(key, node);
                    let fire = self.unprocessed.is_empty();
                    if fire {
                        out.push(ChildCall::Changed);
                    }
                    proof {
                        assert(self.unprocessed_keys() =~= keys_remove(pre_st.unproc, kv));
                        assert(self.next_node == sat_add(pre_st.next, 1));
                        assert(self.proc_state() =~= step_state::<K>(pre_st, pre_evs[0]));
                        if fire {
                            assert(calls_view(out@) =~= pre_out + step_out::<K>(
                                pre_st,
                                pre_evs[0],
                            ));
                        } else {
                            assert(calls_view(out@) =~= pre_out + step_out::<K>(
                                pre_st,
                                pre_evs[0],
                            ));
                        }
                        self.lemma_key_arm_wf(pre_st, pre_evs, kv);
                    }
                },
                DiffEvent::Update { key } => {
                    let ghost kv = key@;
                    proof {
                        lemma_map_remove_props::<K, ()>(self.unprocessed@, kv);
                        lemma_has_key_contains(self.unprocessed@, kv);
                    }
                    self.unprocessed.remove(&key);
                    out.push(ChildCall::UpdateChild { key });
                    let fire = self.unprocessed.is_empty();
                    if fire {
                        out.push(ChildCall::Changed);
                    }
                    proof {
                        assert(self.unprocessed_keys() =~= keys_remove(pre_st.unproc, kv));
                        assert(self.proc_state() =~= step_state::<K>(pre_st, pre_evs[0]));
                        assert(calls_view(out@) =~= pre_out + step_out::<K>(pre_st, pre_evs[0]));
                        self.lemma_key_arm_wf(pre_st, pre_evs, kv);
                    }
                },
                DiffEvent::Remove { key } => {
                    let ghost kv = key@;
                    proof {
                        lemma_map_remove_props::<K, ()>(self.unprocessed@, kv);
                        lemma_has_key_contains(self.unprocessed@, kv);
                        lemma_map_remove_props::<K, u64>(self.items@, kv);
                        lemma_has_key_contains(self.items@, kv);
                    }
                    self.unprocessed.remove(&key);
                    // the engine invariant guarantees a materialized node
                    // for every key a remove event names
                    let node = match self.items.remove(&key) {
                        Some(n) => n,
                        None => {
                            proof {
                                assert(run_keys::<K>(entry_keys(pre_st.items), pre_evs)
                                    is None);
                            }
                            unreached()
                        },
                    };
                    out.push(ChildCall::RemoveChild { key, node });
                    let fire = self.unprocessed.is_empty();
                    if fire {
                        out.push(ChildCall::Changed);
                    }
                    proof {
                        assert(self.unprocessed_keys() =~= keys_remove(pre_st.unproc, kv));
                        assert(lookup(pre_st.items, kv) == Some(node));
                        assert(self.proc_state() =~= step_state::<K>(pre_st, pre_evs[0]));
                        assert(calls_view(out@) =~= pre_out + step_out::<K>(pre_st, pre_evs[0]));
                        self.lemma_key_arm_wf(pre_st, pre_evs, kv);
                    }
                },
                DiffEvent::Clear => {
                    let n = self.items.len();
                    let mut j: usize = 0;
                    while j < n
                        invariant
                            self.items.wf(),
                            self.unprocessed.wf(),
                            self.mutable@ == old(self).mutable@,
                            self.pending_events() == pre_evs.drop_first(),
                            entry_keys(self.unprocessed@) == pre_st.unproc,
                            self.next_node == pre_st.next,
                            n == self.items@.len(),
                            j <= n,
                            self.items@ == pre_st.items,
                            calls_view(out@) == pre_out + removal_calls(pre_st.items).subrange(
                                0,
                                j as int,
                            ),
                        decreases n - j,
                    {
                        let kk = self.items.key_at(j).key_dup();
                        let ghost kkv = kk@;
                        let nd = *self.items.value_at(j);
                        let ghost snap = out@;
                        out.push(ChildCall::RemoveChild { key: kk, node: nd });
                        j = j + 1;
                        proof {
                            lemma_calls_view_extend::<K>(snap, out@);
                            assert(out@[snap.len() as int]@ == (ChildCallView::RemoveChild {
                                key: kkv,
                                node: nd,
                            }));
                            assert(entry_keys(pre_st.items)[j - 1] == pre_st.items[j - 1].0);
                            assert(removal_calls(pre_st.items)[j - 1]
                                == ChildCallView::RemoveChild {
                                key: pre_st.items[j - 1].0,
                                node: pre_st.items[j - 1].1,
                            });
                            assert(calls_view(out@) =~= pre_out + removal_calls(
                                pre_st.items,
                            ).subrange(0, j as int));
                        }
                    }
                    self.items.clear();
                    self.unprocessed.clear();
                    let ghost snap2 = out@;
                    out.push(ChildCall::Changed);
                    proof {
                        lemma_calls_view_extend::<K>(snap2, out@);
                        assert(out@[snap2.len() as int]@ == ChildCallView::<<K as View>::V>::Changed);
                        assert(removal_calls(pre_st.items).subrange(
                            0,
                            pre_st.items.len() as int,
                        ) =~= removal_calls(pre_st.items));
                        assert(entry_keys(self.items@) =~= Seq::<<K as View>::V>::empty());
                        assert(entry_keys(self.unprocessed@) =~= Seq::<<K as View>::V>::empty());
                        assert(self.proc_state() =~= step_state::<K>(pre_st, pre_evs[0]));
                        assert(calls_view(out@) =~= pre_out + step_out::<K>(pre_st, pre_evs[0]));
                        self.lemma_bulk_arm_wf(pre_st, pre_evs);
                    }
                },
                DiffEvent::Replace { keys } => {
                    let ghost kvs = key_views::<K>(keys@);
                    proof {
                        assert(pre_evs[0] matches DiffEventView::Replace { keys: rk } && rk
                            == kvs);
                        assert(sorted_distinct::<K>(kvs));
                    }
                    let n = self.items.len();
                    let mut j: usize = 0;
                    while j < n
                        invariant
                            self.items.wf(),
                            self.unprocessed.wf(),
                            self.mutable@ == old(self).mutable@,
                            self.pending_events() == pre_evs.drop_first(),
                            entry_keys(self.unprocessed@) == pre_st.unproc,
                            self.next_node == pre_st.next,
                            n == self.items@.len(),
                            j <= n,
                            self.items@ == pre_st.items,
                            calls_view(out@) == pre_out + removal_calls(pre_st.items).subrange(
                                0,
                                j as int,
                            ),
                        decreases n - j,
                    {
                        let kk = self.items.key_at(j).key_dup();
                        let ghost kkv = kk@;
                        let nd = *self.items.value_at(j);
                        let ghost snap = out@;
                        out.push(ChildCall::RemoveChild { key: kk, node: nd });
                        j = j + 1;
                        proof {
                            lemma_calls_view_extend::<K>(snap, out@);
                            assert(out@[snap.len() as int]@ == (ChildCallView::RemoveChild {
                                key: kkv,
                                node: nd,
                            }));
                            assert(entry_keys(pre_st.items)[j - 1] == pre_st.items[j - 1].0);
                            assert(removal_calls(pre_st.items)[j - 1]
                                == ChildCallView::RemoveChild {
                                key: pre_st.items[j - 1].0,
                                node: pre_st.items[j - 1].1,
                            });
                            assert(calls_view(out@) =~= pre_out + removal_calls(
                                pre_st.items,
                            ).subrange(0, j as int));
                        }
                    }
                    self.items.clear();
                    self.unprocessed.clear();
                    proof {
                        assert(removal_calls(pre_st.items).subrange(
                            0,
                            pre_st.items.len() as int,
                        ) =~= removal_calls(pre_st.items));
                    }
                    let ghost base = calls_view(out@);
                    let ghost next0 = self.next_node;
                    let m = keys.len();
                    let mut j2: usize = 0;
                    proof {
                        assert(self.items@ =~= items_from(kvs, next0).subrange(0, 0));
                        assert(calls_view(out@) =~= base + creation_calls(kvs, next0).subrange(
                            0,
                            0,
                        ));
                    }
                    while j2 < m
                        invariant
                            self.items.wf(),
                            self.unprocessed.wf(),
                            self.mutable@ == old(self).mutable@,
                            self.pending_events() == pre_evs.drop_first(),
                            self.unprocessed@.len() == 0,
                            m == kvs.len(),
                            m == keys@.len(),
                            kvs == key_views::<K>(keys@),
                            sorted_distinct::<K>(kvs),
                            j2 <= m,
                            self.items@ == items_from(kvs, next0).subrange(0, j2 as int),
                            self.next_node == sat_add(next0, j2 as int),
                            calls_view(out@) == base + creation_calls(kvs, next0).subrange(
                                0,
                                j2 as int,
                            ),
                        decreases m - j2,
                    {
                        let node = self.next_node;
                        self.next_node = if self.next_node < u64::MAX {
                            self.next_node + 1
                        } else {
                            u64::MAX
                        };
                        let kk = keys[j2].key_dup();
                        let ghost kkv = kk@;
                        let ghost snap = out@;
                        out.push(ChildCall::CreateChild { key: kk, node });
                        let km = keys[j2].key_dup();
                        proof {
                            assert(km@ == kvs[j2 as int]);
                            assert(entry_keys(self.items@).len() == j2);
                            assert forall|x: int| 0 <= x < j2 implies key_lt::<K>(
                                entry_keys(self.items@)[x],
                                km@,
                            ) by {
                                assert(entry_keys(self.items@)[x] == kvs[x]);
                                assert(key_lt::<K>(kvs[x], kvs[j2 as int]));
                            }
                            crate::keyed_map::lemma_insert_positional::<K, u64>(
                                self.items@,
                                km@,
                                node,
                                j2 as int,
                                false,
                            );
                        }
                        self.items.insert(km, node);
                        j2 = j2 + 1;
                        proof {
                            lemma_calls_view_extend::<K>(snap, out@);
                            assert(out@[snap.len() as int]@ == (ChildCallView::CreateChild {
                                key: kkv,
                                node: node,
                            }));
                            assert(node == sat_add(next0, j2 - 1));
                            assert(creation_calls(kvs, next0)[j2 - 1]
                                == ChildCallView::CreateChild {
                                key: kvs[j2 - 1],
                                node: sat_add(next0, j2 - 1),
                            });
                            assert(self.next_node == sat_add(next0, j2 as int));
                            assert(self.items@ =~= items_from(kvs, next0).subrange(
                                0,
                                j2 as int,
                            ));
                            assert(calls_view(out@) =~= base + creation_calls(
                                kvs,
                                next0,
                            ).subrange(0, j2 as int));
                        }
                    }
                    let ghost snap3 = out@;
                    out.push(ChildCall::Changed);
                    proof {
                        lemma_calls_view_extend::<K>(snap3, out@);
                        assert(out@[snap3.len() as int]@ == ChildCallView::<<K as View>::V>::Changed);
                        assert(items_from(kvs, next0).subrange(0, m as int) =~= items_from(
                            kvs,
                            next0,
                        ));
                        assert(creation_calls(kvs, next0).subrange(0, m as int)
                            =~= creation_calls(kvs, next0));
                        assert(entry_keys(self.items@) =~= kvs);
                        assert(entry_keys(self.unprocessed@) =~= Seq::<<K as View>::V>::empty());
                        assert(self.proc_state() =~= step_state::<K>(pre_st, pre_evs[0]));
                        assert(calls_view(out@) =~= pre_out + step_out::<K>(pre_st, pre_evs[0]));
                        self.lemma_bulk_arm_wf(pre_st, pre_evs);
                    }
                },
            }
            proof {
                assert(run_state::<K>(pre_st, pre_evs) == run_state::<K>(
                    step_state::<K>(pre_st, pre_evs[0]),
                    pre_evs.drop_first(),
                ));
                assert(run_out::<K>(pre_st, pre_evs) == step_out::<K>(pre_st, pre_evs[0])
                    + run_out::<K>(step_state::<K>(pre_st, pre_evs[0]), pre_evs.drop_first()));
                assert(calls_view(out@) + run_out::<K>(self.proc_state(), self.pending_events())
                    =~= pre_out + run_out::<K>(pre_st, pre_evs));
            }
        }
        proof {
            assert(self.pending_events() =~= Seq::<DiffEventView<<K as View>::V>>::empty());
            assert(run_state::<K>(self.proc_state(), self.pending_events()) == self.proc_state());
            assert(run_out::<K>(self.proc_state(), self.pending_events()) =~= Seq::<
                ChildCallView<<K as View>::V>,
            >::empty());
            assert(calls_view(out@) + run_out::<K>(self.proc_state(), self.pending_events())
                =~= calls_view(out@));
            let unp = entry_keys(self.unprocessed@);
            assert(unp.len() == 0) by {
                if unp.len() > 0 {
                    assert(unp.contains(unp[0]));
                }
            }
            assert(unp =~= Seq::<<K as View>::V>::empty());
        }
        out
    }

    /// Invariant maintenance for a key-level arm of the processing loop:
    /// the front event was consumed and its key struck from the batch.
    proof fn lemma_key_arm_wf(
        &self,
        pre_st: ProcState<<K as View>::V>,
        pre_evs: Seq<DiffEventView<<K as View>::V>>,
        kv: <K as View>::V,
    )
        requires
            pre_evs.len() > 0,
            is_key_event_on(pre_evs[0], kv),
            self.mutable.wf(),
            self.items.wf(),
            self.unprocessed.wf(),
            self.pending_events() == pre_evs.drop_first(),
            self.unprocessed_keys() == keys_remove(pre_st.unproc, kv),
            lookup(self.unprocessed@, kv) is None,
            run_keys::<K>(entry_keys(pre_st.items), pre_evs) == Some(entry_keys(self.mutable@)),
            step_keys::<K>(entry_keys(pre_st.items), pre_evs[0]) == Some(entry_keys(self.items@)),
            replace_keys_sorted::<K>(pre_evs),
            unproc_covered(pre_st.unproc, pre_evs),
        ensures
            self.wf(),
    {
        assert(run_keys::<K>(entry_keys(self.items@), self.pending_events()) == Some(
            entry_keys(self.mutable@),
        ));
        lemma_has_key_contains(self.unprocessed@, kv);
        assert(!entry_keys(self.unprocessed@).contains(kv));
        let tail = self.pending_events();
        assert(replace_keys_sorted::<K>(tail)) by {
            assert forall|i: int|
                0 <= i < tail.len() implies (#[trigger] tail[i] matches DiffEventView::Replace {
                keys,
            } ==> sorted_distinct::<K>(keys)) by {
                assert(tail[i] == pre_evs[i + 1]);
            }
        }
        assert(unproc_covered(entry_keys(self.unprocessed@), tail)) by {
            let unp2 = entry_keys(self.unprocessed@);
            assert forall|k2: <K as View>::V| unp2.contains(k2) implies exists|i: int|
                0 <= i < tail.len() && (is_key_event_on(#[trigger] tail[i], k2) || is_bulk_event(
                    tail[i],
                )) by {
                lemma_keys_remove_contains(pre_st.unproc, kv, k2);
                assert(pre_st.unproc.contains(k2));
                assert(k2 != kv);
                let i = choose|i: int|
                    0 <= i < pre_evs.len() && (is_key_event_on(#[trigger] pre_evs[i], k2)
                        || is_bulk_event(pre_evs[i]));
                assert(i != 0);
                assert(tail[i - 1] == pre_evs[i]);
            }
        }
    }

    /// Invariant maintenance for a bulk arm of the processing loop: the
    /// front event was consumed and the whole batch acknowledged.
    proof fn lemma_bulk_arm_wf(
        &self,
        pre_st: ProcState<<K as View>::V>,
        pre_evs: Seq<DiffEventView<<K as View>::V>>,
    )
        requires
            pre_evs.len() > 0,
            is_bulk_event(pre_evs[0]),
            self.mutable.wf(),
            self.items.wf(),
            self.unprocessed.wf(),
            self.pending_events() == pre_evs.drop_first(),
            self.unprocessed_keys() == Seq::<<K as View>::V>::empty(),
            run_keys::<K>(entry_keys(pre_st.items), pre_evs) == Some(entry_keys(self.mutable@)),
            step_keys::<K>(entry_keys(pre_st.items), pre_evs[0]) == Some(entry_keys(self.items@)),
            replace_keys_sorted::<K>(pre_evs),
        ensures
            self.wf(),
    {
        assert(run_keys::<K>(entry_keys(self.items@), self.pending_events()) == Some(
            entry_keys(self.mutable@),
        ));
        let tail = self.pending_events();
        assert(replace_keys_sorted::<K>(tail)) by {
            assert forall|i: int|
                0 <= i < tail.len() implies (#[trigger] tail[i] matches DiffEventView::Replace {
                keys,
            } ==> sorted_distinct::<K>(keys)) by {
                assert(tail[i] == pre_evs[i + 1]);
            }
        }
        assert(unproc_covered(entry_keys(self.unprocessed@), tail));
    }
}

/// A lightweight accessor bound to one key of an engine's map, handed to the
/// code rendering that entry.  It carries the key and a default value; reads
/// go through the owning engine, so the handle never outlives the map's
/// authority over the value.
pub struct SeriousValue<K, V> {
    key: K,
    initial_value: V,
}

impl<K: DiffKey, V: Clone> SeriousValue<K, V> {
    /// The view of the key this handle is bound to.
    pub closed spec fn key_view(&self) -> <K as View>::V {
        self.key@
    }

    /// The default value substituted while the key is absent.
    pub closed spec fn initial(&self) -> V {
        self.initial_value
    }

    /// Bind a handle to `key`, with `initial_value` as the default that
    /// [`SeriousValue::signal`] falls back to.
    pub fn new(key: K, initial_value: V) -> (r: Self)
        ensures
            r.key_view() == key@,
            r.initial() == initial_value,
    {
        SeriousValue { key, initial_value }
    }

    /// A clone of the value presently stored for this handle's key.  The
    /// key must still be present: callers are expected to stop using the
    /// handle once notified of its removal.
    pub fn current(&self, owner: &ChildrenDiff<K, V>) -> (r: V)
        requires
            owner.wf(),
            has_key(owner.map_entries(), self.key_view()),
        ensures
            cloned(lookup(owner.map_entries(), self.key_view()).unwrap(), r),
    {
        match owner.get(&self.key) {
            Some(v) => v.clone(),
            None => unreached(),
        }
    }

    /// Read-only access to the stored value, without cloning.
    pub fn map_ref<'a>(&self, owner: &'a ChildrenDiff<K, V>) -> (r: &'a V)
        requires
            owner.wf(),
            has_key(owner.map_entries(), self.key_view()),
        ensures
            *r == lookup(owner.map_entries(), self.key_view()).unwrap(),
    {
        match owner.get(&self.key) {
            Some(v) => v,
            None => unreached(),
        }
    }

    /// Apply `f` to the stored value and write the result back, triggering
    /// the engine's normal update event.
    pub fn update<F: FnOnce(V) -> V>(&self, owner: &mut ChildrenDiff<K, V>, f: F)
        requires
            old(owner).wf(),
            has_key(old(owner).map_entries(), self.key_view()),
            forall|v: V|
                lookup(old(owner).map_entries(), self.key_view()) == Some(v) ==> call_requires(
                    f,
                    (v,),
                ),
        ensures
            final(owner).wf(),
            exists|nv: V|
                #[trigger] call_ensures(
                    f,
                    (lookup(old(owner).map_entries(), self.key_view()).unwrap(),),
                    nv,
                ) && final(owner).map_entries() == map_insert::<K, V>(
                    old(owner).map_entries(),
                    self.key_view(),
                    nv,
                ),
            final(owner).pending_events() == old(owner).pending_events() + seq![
                (DiffEventView::Update { key: self.key_view() }),
            ],
            final(owner).item_entries() == old(owner).item_entries(),
            final(owner).fresh_node() == old(owner).fresh_node(),
    {
        let _applied = owner.update_with(&self.key, f);
    }

    /// A sample of the live view of this entry: the stored value while the
    /// key is present, and the handle's default once it is absent (for
    /// instance immediately after removal).
    pub fn signal(&self, owner: &ChildrenDiff<K, V>) -> (r: V)
        requires
            owner.wf(),
        ensures
            has_key(owner.map_entries(), self.key_view()) ==> cloned(
                lookup(owner.map_entries(), self.key_view()).unwrap(),
                r,
            ),
            !has_key(owner.map_entries(), self.key_view()) ==> cloned(self.initial(), r),
    {
        match owner.get(&self.key) {
            Some(v) => v.clone(),
            None => self.initial_value.clone(),
        }
    }
}

/// Number of change notifications among a sequence of calls.
pub open spec fn changed_count<KV>(cs: Seq<ChildCallView<KV>>) -> nat
    decreases cs.len(),
{
    if cs.len() == 0 {
        0
    } else {
        (if cs[0] is Changed {
            1nat
        } else {
            0nat
        }) + changed_count(cs.drop_first())
    }
}

proof fn lemma_changed_count_add<KV>(a: Seq<ChildCallView<KV>>, b: Seq<ChildCallView<KV>>)
    ensures
        changed_count(a + b) == changed_count(a) + changed_count(b),
    decreases a.len(),
{
    if a.len() == 0 {
        assert(a + b =~= b);
    } else {
        assert((a + b)[0] == a[0]);
        assert((a + b).drop_first() =~= a.drop_first() + b);
        lemma_changed_count_add(a.drop_first(), b);
    }
}

proof fn lemma_changed_count_none<KV>(cs: Seq<ChildCallView<KV>>)
    requires
        forall|i: int| 0 <= i < cs.len() ==> !(#[trigger] cs[i] is Changed),
    ensures
        changed_count(cs) == 0,
    decreases cs.len(),
{
    if cs.len() > 0 {
        assert(forall|i: int| 0 <= i < cs.len() - 1 ==> cs.drop_first()[i] == cs[i + 1]);
        lemma_changed_count_none(cs.drop_first());
    }
}

/// The key a single-key event is about.  Meaningless for bulk events.
pub open spec fn event_key<KV>(ev: DiffEventView<KV>) -> KV {
    match ev {
        DiffEventView::Insert { key } => key,
        DiffEventView::Update { key } => key,
        DiffEventView::Remove { key } => key,
        DiffEventView::Clear => arbitrary(),
        DiffEventView::Replace { keys } => arbitrary(),
    }
}

proof fn lemma_changed_count_single<KV>(c: ChildCallView<KV>)
    requires
        !(c is Changed),
    ensures
        changed_count(seq![c]) == 0,
{
    assert(seq![c][0] == c);
    assert(seq![c].drop_first() =~= Seq::<ChildCallView<KV>>::empty());
    assert(changed_count(Seq::<ChildCallView<KV>>::empty()) == 0);
}

proof fn lemma_changed_if_count<KV>(u: Seq<KV>)
    ensures
        changed_count(changed_if::<KV>(u)) == if u.len() == 0 {
            1nat
        } else {
            0nat
        },
{
    if u.len() == 0 {
        let f = changed_if::<KV>(u);
        assert(f[0] is Changed);
        assert(f.drop_first() =~= Seq::<ChildCallView<KV>>::empty());
        assert(changed_count(Seq::<ChildCallView<KV>>::empty()) == 0);
    } else {
        assert(changed_count(Seq::<ChildCallView<KV>>::empty()) == 0);
    }
}

/// A single-key event notifies a change exactly when it empties the batch.
proof fn lemma_step_out_changed<K: DiffKey>(
    st: ProcState<<K as View>::V>,
    ev: DiffEventView<<K as View>::V>,
)
    requires
        !is_bulk_event(ev),
    ensures
        changed_count(step_out::<K>(st, ev)) == if keys_remove(st.unproc, event_key(ev)).len()
            == 0 {
            1nat
        } else {
            0nat
        },
{
    let u = keys_remove(st.unproc, event_key(ev));
    match ev {
        DiffEventView::Insert { key } => {
            let c = ChildCallView::<<K as View>::V>::CreateChild { key, node: st.next };
            assert(step_out::<K>(st, ev) == seq![c] + changed_if(u));
            lemma_changed_count_add(seq![c], changed_if(u));
            lemma_changed_count_single(c);
            lemma_changed_if_count(u);
        },
        DiffEventView::Update { key } => {
            let c = ChildCallView::<<K as View>::V>::UpdateChild { key };
            assert(step_out::<K>(st, ev) == seq![c] + changed_if(u));
            lemma_changed_count_add(seq![c], changed_if(u));
            lemma_changed_count_single(c);
            lemma_changed_if_count(u);
        },
        DiffEventView::Remove { key } => {
            let c = ChildCallView::<<K as View>::V>::RemoveChild {
                key,
                node: lookup(st.items, key).unwrap(),
            };
            assert(step_out::<K>(st, ev) == seq![c] + changed_if(u));
            lemma_changed_count_add(seq![c], changed_if(u));
            lemma_changed_count_single(c);
            lemma_changed_if_count(u);
        },
        DiffEventView::Clear => {},
        DiffEventView::Replace { keys } => {},
    }
}

/// Coalescing: one batch of single-key events — touching distinct keys that
/// are exactly the keys marked unprocessed — fires exactly one change
/// notification, after its last event, however many events the batch
/// decomposed into.
pub proof fn lemma_batch_coalesces<K: DiffKey>(
    st: ProcState<<K as View>::V>,
    evs: Seq<DiffEventView<<K as View>::V>>,
)
    requires
        evs.len() > 0,
        forall|i: int| 0 <= i < evs.len() ==> !is_bulk_event(#[trigger] evs[i]),
        forall|i: int, j: int|
            0 <= i < j < evs.len() ==> event_key(evs[i]) != event_key(evs[j]),
        seq_distinct(st.unproc),
        forall|k: <K as View>::V|
            #[trigger] st.unproc.contains(k) ==> exists|i: int|
                0 <= i < evs.len() && event_key(#[trigger] evs[i]) == k,
        forall|i: int| 0 <= i < evs.len() ==> st.unproc.contains(event_key(#[trigger] evs[i])),
    ensures
        changed_count(run_out::<K>(st, evs)) == 1,
    decreases evs.len(),
{
    let k0 = event_key(evs[0]);
    let st2 = step_state::<K>(st, evs[0]);
    let unp2 = keys_remove(st.unproc, k0);
    assert(st2.unproc == unp2);
    let seg = step_out::<K>(st, evs[0]);
    lemma_step_out_changed::<K>(st, evs[0]);
    assert(run_out::<K>(st, evs) == seg + run_out::<K>(st2, evs.drop_first()));
    lemma_changed_count_add(seg, run_out::<K>(st2, evs.drop_first()));
    if evs.len() == 1 {
        assert(st.unproc.contains(k0));
        assert(st.unproc.len() == 1) by {
            assert forall|w: int| 0 <= w < st.unproc.len() implies st.unproc[w] == k0 by {
                assert(st.unproc.contains(st.unproc[w]));
                let i = choose|i: int| 0 <= i < evs.len() && event_key(evs[i]) == st.unproc[w];
            }
            if st.unproc.len() >= 2 {
                assert(st.unproc[0] == k0 && st.unproc[1] == k0);
                assert(false);
            }
        }
        assert(st.unproc[0] == k0) by {
            let w = choose|w: int| 0 <= w < st.unproc.len() && st.unproc[w] == k0;
        }
        assert(unp2.len() == 0);
        assert(evs.drop_first() =~= Seq::<DiffEventView<<K as View>::V>>::empty());
        assert(run_out::<K>(st2, evs.drop_first()) =~= Seq::<
            ChildCallView<<K as View>::V>,
        >::empty());
        assert(changed_count(Seq::<ChildCallView<<K as View>::V>>::empty()) == 0);
    } else {
        let k1 = event_key(evs[1]);
        assert(st.unproc.contains(k1));
        assert(k1 != k0);
        lemma_keys_remove_keeps(st.unproc, k0, k1);
        assert(unp2.len() > 0) by {
            assert(unp2.contains(k1));
        }
        let tail = evs.drop_first();
        assert(forall|j: int| 0 <= j < tail.len() ==> tail[j] == evs[j + 1]);
        lemma_keys_remove_distinct(st.unproc, k0);
        lemma_keys_remove_gone(st.unproc, k0);
        assert forall|k: <K as View>::V| #[trigger] unp2.contains(k) implies exists|i: int|
            0 <= i < tail.len() && event_key(#[trigger] tail[i]) == k by {
            lemma_keys_remove_contains(st.unproc, k0, k);
            assert(st.unproc.contains(k));
            assert(k != k0);
            let i = choose|i: int| 0 <= i < evs.len() && event_key(evs[i]) == k;
            assert(i != 0);
            assert(event_key(tail[i - 1]) == k);
        }
        assert forall|i: int| 0 <= i < tail.len() implies unp2.contains(
            event_key(#[trigger] tail[i]),
        ) by {
            let k = event_key(evs[i + 1]);
            assert(st.unproc.contains(k));
            assert(k != k0);
            lemma_keys_remove_keeps(st.unproc, k0, k);
        }
        lemma_batch_coalesces::<K>(st2, tail);
    }
}

/// Coalescing: one replacement of the whole contents, however many entries
/// it carries, is delivered with exactly one change notification — the node
/// removals and creations it decomposes into fire none of their own.
pub proof fn lemma_replace_coalesces<K: DiffKey>(
    st: ProcState<<K as View>::V>,
    keys: Seq<<K as View>::V>,
)
    ensures
        changed_count(run_out::<K>(st, seq![(DiffEventView::Replace { keys })])) == 1,
{
    let evs = seq![DiffEventView::<<K as View>::V>::Replace { keys }];
    let seg = step_out::<K>(st, evs[0]);
    assert(evs.drop_first() =~= Seq::<DiffEventView<<K as View>::V>>::empty());
    assert(run_out::<K>(st, evs) =~= seg) by {
        assert(run_out::<K>(step_state::<K>(st, evs[0]), evs.drop_first()) =~= Seq::<
            ChildCallView<<K as View>::V>,
        >::empty());
    }
    let removals = removal_calls(st.items);
    let creations = creation_calls(keys, st.next);
    let fire = seq![ChildCallView::<<K as View>::V>::Changed];
    lemma_changed_count_add(removals + creations, fire);
    lemma_changed_count_add(removals, creations);
    lemma_changed_count_none(removals);
    lemma_changed_count_none(creations);
    assert(changed_count(fire) == 1) by {
        assert(fire[0] is Changed);
        assert(fire.drop_first() =~= Seq::<ChildCallView<<K as View>::V>>::empty());
        assert(changed_count(Seq::<ChildCallView<<K as View>::V>>::empty()) == 0);
    }
}

/// Appending one call extends the sequence of call views by that call's
/// view.
pub proof fn lemma_calls_view_extend<K: DiffKey>(s: Seq<ChildCall<K>>, t: Seq<ChildCall<K>>)
    requires
        t.len() == s.len() + 1,
        forall|i: int| 0 <= i < s.len() ==> t[i] == s[i],
    ensures
        calls_view::<K>(t) =~= calls_view::<K>(s) + seq![t[s.len() as int]@],
{
}

/// Replaying events appended at the back: run the front first, then step.
pub proof fn lemma_run_keys_snoc<K: DiffKey>(
    ks: Seq<<K as View>::V>,
    evs: Seq<DiffEventView<<K as View>::V>>,
    ev: DiffEventView<<K as View>::V>,
)
    ensures
        run_keys::<K>(ks, evs + seq![ev]) == (match run_keys::<K>(ks, evs) {
            Some(mk) => step_keys::<K>(mk, ev),
            None => None::<Seq<<K as View>::V>>,
        }),
    decreases evs.len(),
{
    let all = evs + seq![ev];
    if evs.len() == 0 {
        assert(all[0] == ev);
        assert(all.drop_first() =~= Seq::<DiffEventView<<K as View>::V>>::empty());
        match step_keys::<K>(ks, ev) {
            Some(ks2) => {
                assert(run_keys::<K>(ks2, all.drop_first()) == Some(ks2));
            },
            None => {},
        }
    } else {
        assert(all[0] == evs[0]);
        assert(all.drop_first() =~= evs.drop_first() + seq![ev]);
        match step_keys::<K>(ks, evs[0]) {
            Some(ks2) => {
                lemma_run_keys_snoc::<K>(ks2, evs.drop_first(), ev);
            },
            None => {},
        }
    }
}


} // verus!
