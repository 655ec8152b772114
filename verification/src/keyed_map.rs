//! An ordered keyed collection: the authoritative store behind the
//! reconciliation engine.
//!
//! Entries are held in a vector sorted strictly by key, so iteration is in
//! key order and every key occurs at most once.  The view of the map is the
//! sequence of `(key view, value)` pairs; `lookup`, `map_insert` and
//! `map_remove` describe the operations on that sequence.

use vstd::prelude::*;

use crate::key::DiffKey;
use crate::key::KeyCmp;

verus! {

/// One key/value pair of a [`KeyedMap`].
struct Entry<K, V> {
    key: K,
    value: V,
}

/// Keyed collection ordered strictly by key.
pub struct KeyedMap<K: DiffKey, V> {
    entries: Vec<Entry<K, V>>,
}

impl<K: DiffKey, V> View for KeyedMap<K, V> {
    type V = Seq<(<K as View>::V, V)>;

    closed spec fn view(&self) -> Seq<(<K as View>::V, V)> {
        self.entries@.map_values(|e: Entry<K, V>| (e.key@, e.value))
    }
}

/// Strict order between two key views.
pub open spec fn key_lt<K: DiffKey>(a: <K as View>::V, b: <K as View>::V) -> bool {
    K::key_le(a, b) && a != b
}

/// The keys of a sequence of entries, in entry order.
pub open spec fn entry_keys<KV, V>(s: Seq<(KV, V)>) -> Seq<KV> {
    s.map_values(|p: (KV, V)| p.0)
}

/// A sequence of key views that is strictly increasing (hence duplicate-free).
pub open spec fn sorted_distinct<K: DiffKey>(ks: Seq<<K as View>::V>) -> bool {
    forall|i: int, j: int|
        0 <= i < j < ks.len() ==> #[trigger] key_lt::<K>(ks[i], ks[j])
}

/// The value stored for `k`, if any.
pub open spec fn lookup<KV, V>(s: Seq<(KV, V)>, k: KV) -> Option<V>
    decreases s.len(),
{
    if s.len() == 0 {
        None
    } else if s[0].0 == k {
        Some(s[0].1)
    } else {
        lookup(s.drop_first(), k)
    }
}

/// Whether some entry of `s` carries the key `k`.
pub open spec fn has_key<KV, V>(s: Seq<(KV, V)>, k: KV) -> bool {
    lookup(s, k) is Some
}

/// `s` with `(k, v)` inserted at its sorted position, replacing any entry
/// already keyed by `k`.
pub open spec fn map_insert<K: DiffKey, V>(
    s: Seq<(<K as View>::V, V)>,
    k: <K as View>::V,
    v: V,
) -> Seq<(<K as View>::V, V)>
    decreases s.len(),
{
    if s.len() == 0 {
        seq![(k, v)]
    } else if s[0].0 == k {
        seq![(k, v)] + s.drop_first()
    } else if K::key_le(k, s[0].0) {
        seq![(k, v)] + s
    } else {
        seq![s[0]] + map_insert::<K, V>(s.drop_first(), k, v)
    }
}

/// `s` with the entry keyed by `k` removed, if present.
pub open spec fn map_remove<KV, V>(s: Seq<(KV, V)>, k: KV) -> Seq<(KV, V)>
    decreases s.len(),
{
    if s.len() == 0 {
        s
    } else if s[0].0 == k {
        s.drop_first()
    } else {
        seq![s[0]] + map_remove(s.drop_first(), k)
    }
}

/// `ks` with `k` inserted at its sorted position, if not already present.
pub open spec fn keys_insert<K: DiffKey>(
    ks: Seq<<K as View>::V>,
    k: <K as View>::V,
) -> Seq<<K as View>::V>
    decreases ks.len(),
{
    if ks.len() == 0 {
        seq![k]
    } else if ks[0] == k {
        ks
    } else if K::key_le(k, ks[0]) {
        seq![k] + ks
    } else {
        seq![ks[0]] + keys_insert::<K>(ks.drop_first(), k)
    }
}

/// `ks` with `k` removed, if present.
pub open spec fn keys_remove<KV>(ks: Seq<KV>, k: KV) -> Seq<KV>
    decreases ks.len(),
{
    if ks.len() == 0 {
        ks
    } else if ks[0] == k {
        ks.drop_first()
    } else {
        seq![ks[0]] + keys_remove(ks.drop_first(), k)
    }
}

/// The views of a vector of keys, in order.
pub open spec fn key_views<K: DiffKey>(ks: Seq<K>) -> Seq<<K as View>::V> {
    ks.map_values(|k: K| k@)
}

impl<K: DiffKey, V> KeyedMap<K, V> {
    /// Entries are strictly sorted by key.
    pub open spec fn wf(&self) -> bool {
        sorted_distinct::<K>(entry_keys(self@))
    }

    /// The empty map.
    pub fn new() -> (r: Self)
        ensures
            r@ == Seq::<(<K as View>::V, V)>::empty(),
            r.wf(),
    {
        let r = KeyedMap { entries: Vec::new() };
        proof {
            assert(r@ =~= Seq::<(<K as View>::V, V)>::empty());
        }
        r
    }

    /// Number of entries.
    pub fn len(&self) -> (r: usize)
        ensures
            r == self@.len(),
    {
        self.entries.len()
    }

    /// Whether the map has no entries.
    pub fn is_empty(&self) -> (r: bool)
        ensures
            r == (self@.len() == 0),
    {
        self.entries.len() == 0
    }

    /// The key of the entry at position `i`.
    pub fn key_at(&self, i: usize) -> (r: &K)
        requires
            i < self@.len(),
        ensures
            r@ == entry_keys(self@)[i as int],
    {
        &self.entries[i].key
    }

    /// The value of the entry at position `i`.
    pub fn value_at(&self, i: usize) -> (r: &V)
        requires
            i < self@.len(),
        ensures
            *r == self@[i as int].1,
    {
        &self.entries[i].value
    }

    /// First position whose key is not below `key`, and whether that
    /// position holds `key` itself.
    fn position(&self, key: &K) -> (r: (usize, bool))
        requires
            self.wf(),
        ensures
            r.0 <= self@.len(),
            forall|j: int| 0 <= j < r.0 ==> key_lt::<K>(entry_keys(self@)[j], key@),
            r.1 ==> r.0 < self@.len() && entry_keys(self@)[r.0 as int] == key@,
            !r.1 && r.0 < self@.len() ==> key_lt::<K>(key@, entry_keys(self@)[r.0 as int]),
    {
        let n = self.entries.len();
        let mut i: usize = 0;
        while i < n
            invariant
                self.wf(),
                n == self@.len(),
                i <= n,
                forall|j: int| 0 <= j < i ==> key_lt::<K>(entry_keys(self@)[j], key@),
            decreases n - i,
        {
            match self.entries[i].key.key_cmp(key) {
                KeyCmp::Lt => {
                    i = i + 1;
                },
                KeyCmp::Eq => {
                    return (i, true);
                },
                KeyCmp::Gt => {
                    proof {
                        K::lemma_le_total(key@, entry_keys(self@)[i as int]);
                    }
                    return (i, false);
                },
            }
        }
        (n, false)
    }

    /// Read access to the value stored for `key`.
    pub fn get(&self, key: &K) -> (r: Option<&V>)
        requires
            self.wf(),
        ensures
            match r {
                Some(v) => lookup(self@, key@) == Some(*v),
                None => lookup(self@, key@) is None,
            },
    {
        let (i, found) = self.position(key);
        if found {
            proof {
                lemma_lookup_at::<<K as View>::V, V>(self@, key@, i as int);
            }
            Some(&self.entries[i].value)
        } else {
            proof {
                lemma_absent_from_position::<K, V>(self@, key@, i as int);
            }
            None
        }
    }

    /// Whether `key` is present.
    pub fn contains_key(&self, key: &K) -> (r: bool)
        requires
            self.wf(),
        ensures
            r == has_key(self@, key@),
    {
        match self.get(key) {
            Some(_) => true,
            None => false,
        }
    }

    /// Insert `value` under `key`, replacing any previous value.  Returns
    /// whether the key was already present.
    pub fn insert(&mut self, key: K, value: V) -> (existed: bool)
        requires
            old(self).wf(),
        ensures
            final(self).wf(),
            final(self)@ == map_insert::<K, V>(old(self)@, key@, value),
            existed == has_key(old(self)@, key@),
    {
        proof {
            lemma_map_insert_props::<K, V>(old(self)@, key@, value);
        }
        let (i, found) = self.position(&key);
        proof {
            if found {
                lemma_lookup_at::<<K as View>::V, V>(self@, key@, i as int);
                lemma_insert_positional::<K, V>(self@, key@, value, i as int, true);
            } else {
                lemma_absent_from_position::<K, V>(self@, key@, i as int);
                lemma_insert_positional::<K, V>(self@, key@, value, i as int, false);
            }
        }
        let ghost prior = self@;
        if found {
            self.entries.set(i, Entry { key, value });
            proof {
                assert(self@ =~= prior.update(i as int, (key@, value)));
            }
            true
        } else {
            self.entries.insert(i, Entry { key, value });
            proof {
                assert(self@ =~= prior.insert(i as int, (key@, value)));
            }
            false
        }
    }

    /// Remove the entry stored under `key`, returning its value if present.
    pub fn remove(&mut self, key: &K) -> (r: Option<V>)
        requires
            old(self).wf(),
        ensures
            final(self).wf(),
            final(self)@ == map_remove(old(self)@, key@),
            r == lookup(old(self)@, key@),
    {
        proof {
            lemma_map_remove_props::<K, V>(old(self)@, key@);
        }
        let (i, found) = self.position(key);
        if found {
            proof {
                lemma_lookup_at::<<K as View>::V, V>(self@, key@, i as int);
                lemma_remove_positional::<K, V>(self@, key@, i as int);
            }
            let ghost prior = self@;
            let e = self.entries.remove(i);
            proof {
                assert(self@ =~= prior.remove(i as int));
            }
            Some(e.value)
        } else {
            proof {
                lemma_absent_from_position::<K, V>(self@, key@, i as int);
                lemma_remove_absent::<<K as View>::V, V>(self@, key@);
            }
            None
        }
    }

    /// Remove every entry.
    pub fn clear(&mut self)
        ensures
            final(self)@ == Seq::<(<K as View>::V, V)>::empty(),
            final(self).wf(),
    {
        self.entries.clear();
        proof {
            assert(self@ =~= Seq::<(<K as View>::V, V)>::empty());
        }
    }

    /// The keys of the map, in key order.
    pub fn keys(&self) -> (r: Vec<K>)
        ensures
            key_views::<K>(r@) == entry_keys(self@),
    {
        let n = self.entries.len();
        let mut r: Vec<K> = Vec::new();
        let mut i: usize = 0;
        while i < n
            invariant
                n == self@.len(),
                i <= n,
                r@.len() == i,
                forall|j: int| 0 <= j < i ==> #[trigger] r@[j]@ == entry_keys(self@)[j],
            decreases n - i,
        {
            r.push(self.entries[i].key.key_dup());
            i = i + 1;
        }
        proof {
            assert(key_views::<K>(r@) =~= entry_keys(self@));
        }
        r
    }
}

/// If entry `i` carries the key `k` and the keys are strictly sorted, the
/// lookup of `k` yields that entry's value.
proof fn lemma_lookup_at<KV, V>(s: Seq<(KV, V)>, k: KV, i: int)
    requires
        0 <= i < s.len(),
        s[i].0 == k,
        forall|j: int| 0 <= j < i ==> entry_keys(s)[j] != k,
    ensures
        lookup(s, k) == Some(s[i].1),
    decreases s.len(),
{
    if i > 0 {
        assert(entry_keys(s)[0] == s[0].0);
        assert(forall|j: int|
            0 <= j < i - 1 ==> entry_keys(s.drop_first())[j] == entry_keys(s)[j + 1]);
        lemma_lookup_at(s.drop_first(), k, i - 1);
    }
}

/// A key below every stored key, or stored nowhere, is absent.
proof fn lemma_lookup_none<KV, V>(s: Seq<(KV, V)>, k: KV)
    requires
        forall|j: int| 0 <= j < s.len() ==> entry_keys(s)[j] != k,
    ensures
        lookup(s, k) is None,
    decreases s.len(),
{
    if s.len() > 0 {
        assert(entry_keys(s)[0] == s[0].0);
        assert(forall|j: int|
            0 <= j < s.len() - 1 ==> entry_keys(s.drop_first())[j] == entry_keys(s)[j + 1]);
        lemma_lookup_none(s.drop_first(), k);
    }
}

/// From a failed search at position `i` in a sorted entry sequence, the key
/// is absent altogether.
proof fn lemma_absent_from_position<K: DiffKey, V>(s: Seq<(<K as View>::V, V)>, k: <K as View>::V, i: int)
    requires
        sorted_distinct::<K>(entry_keys(s)),
        0 <= i <= s.len(),
        forall|j: int| 0 <= j < i ==> key_lt::<K>(entry_keys(s)[j], k),
        i < s.len() ==> key_lt::<K>(k, entry_keys(s)[i]),
    ensures
        lookup(s, k) is None,
{
    assert forall|j: int| 0 <= j < s.len() implies entry_keys(s)[j] != k by {
        if j < i {
            assert(key_lt::<K>(entry_keys(s)[j], k));
        } else {
            if j > i {
                assert(key_lt::<K>(entry_keys(s)[i], entry_keys(s)[j]));
            }
            if entry_keys(s)[j] == k {
                if j > i {
                    K::lemma_le_trans(k, entry_keys(s)[i], entry_keys(s)[j]);
                    K::lemma_le_antisym(entry_keys(s)[i], entry_keys(s)[j]);
                }
                assert(false);
            }
        }
    }
    lemma_lookup_none(s, k);
}

/// `map_insert` stores `v` under `k`, leaves every other key unchanged,
/// rewrites the key sequence by `keys_insert`, and keeps it sorted.
pub proof fn lemma_map_insert_props<K: DiffKey, V>(s: Seq<(<K as View>::V, V)>, k: <K as View>::V, v: V)
    requires
        sorted_distinct::<K>(entry_keys(s)),
    ensures
        lookup(map_insert::<K, V>(s, k, v), k) == Some(v),
        forall|k2: <K as View>::V|
            k2 != k ==> #[trigger] lookup(map_insert::<K, V>(s, k, v), k2) == lookup(s, k2),
        entry_keys(map_insert::<K, V>(s, k, v)) == keys_insert::<K>(entry_keys(s), k),
        sorted_distinct::<K>(entry_keys(map_insert::<K, V>(s, k, v))),
    decreases s.len(),
{
    let t = map_insert::<K, V>(s, k, v);
    if s.len() == 0 {
        assert(entry_keys(t) =~= keys_insert::<K>(entry_keys(s), k));
        assert(forall|k2: <K as View>::V|
            k2 != k ==> #[trigger] lookup(t, k2) == lookup(s, k2)) by {
            assert forall|k2: <K as View>::V| k2 != k implies #[trigger] lookup(t, k2) == lookup(
                s,
                k2,
            ) by {
                assert(t.drop_first() =~= s);
            }
        }
    } else if s[0].0 == k {
        assert(t == seq![(k, v)] + s.drop_first());
        assert(t[0] == (k, v));
        assert(t.drop_first() =~= s.drop_first());
        assert(entry_keys(t) =~= entry_keys(s));
        assert(keys_insert::<K>(entry_keys(s), k) == entry_keys(s)) by {
            assert(entry_keys(s)[0] == k);
        }
        assert forall|k2: <K as View>::V| k2 != k implies #[trigger] lookup(t, k2) == lookup(
            s,
            k2,
        ) by {
            assert(lookup(t, k2) == lookup(t.drop_first(), k2));
            assert(lookup(s, k2) == lookup(s.drop_first(), k2));
        }
    } else if K::key_le(k, s[0].0) {
        assert(t == seq![(k, v)] + s);
        assert(t[0] == (k, v));
        assert(t.drop_first() =~= s);
        assert(entry_keys(t) =~= seq![k] + entry_keys(s));
        assert(keys_insert::<K>(entry_keys(s), k) == seq![k] + entry_keys(s)) by {
            assert(entry_keys(s)[0] == s[0].0);
        }
        assert(sorted_distinct::<K>(entry_keys(t))) by {
            let ks = entry_keys(t);
            assert forall|i: int, j: int| 0 <= i < j < ks.len() implies #[trigger] key_lt::<K>(
                ks[i],
                ks[j],
            ) by {
                if i == 0 {
                    assert(ks[j] == entry_keys(s)[j - 1]);
                    if j - 1 > 0 {
                        assert(key_lt::<K>(entry_keys(s)[0], entry_keys(s)[j - 1]));
                    }
                    if k == ks[j] {
                        if j - 1 > 0 {
                            K::lemma_le_trans(k, s[0].0, ks[j]);
                            K::lemma_le_antisym(s[0].0, ks[j]);
                        }
                        assert(false);
                    }
                    if j - 1 > 0 {
                        K::lemma_le_trans(k, s[0].0, ks[j]);
                    }
                } else {
                    assert(key_lt::<K>(entry_keys(s)[i - 1], entry_keys(s)[j - 1]));
                }
            }
        }
    } else {
        let st = s.drop_first();
        assert(forall|j: int|
            0 <= j < st.len() ==> entry_keys(st)[j] == entry_keys(s)[j + 1]);
        assert(sorted_distinct::<K>(entry_keys(st)));
        lemma_map_insert_props::<K, V>(st, k, v);
        let tt = map_insert::<K, V>(st, k, v);
        assert(t == seq![s[0]] + tt);
        assert(t[0] == s[0]);
        assert(t.drop_first() =~= tt);
        assert(entry_keys(t) =~= seq![s[0].0] + entry_keys(tt));
        assert(keys_insert::<K>(entry_keys(s), k) == seq![entry_keys(s)[0]] + keys_insert::<K>(
            entry_keys(s).drop_first(),
            k,
        )) by {
            assert(entry_keys(s)[0] == s[0].0);
            K::lemma_le_total(k, s[0].0);
        }
        assert(entry_keys(s).drop_first() =~= entry_keys(st));
        assert(entry_keys(t) =~= keys_insert::<K>(entry_keys(s), k));
        assert(s[0].0 != k);
        assert(lookup(t, k) == lookup(tt, k));
        assert forall|k2: <K as View>::V| k2 != k implies #[trigger] lookup(t, k2) == lookup(
            s,
            k2,
        ) by {
            assert(lookup(t, k2) == if t[0].0 == k2 {
                Some(t[0].1)
            } else {
                lookup(tt, k2)
            });
        }
        // sortedness: k sits between keys it exceeds and keys exceeding it
        assert(sorted_distinct::<K>(entry_keys(t))) by {
            let ks = entry_keys(t);
            let kt = entry_keys(tt);
            K::lemma_le_total(k, s[0].0);
            assert(key_lt::<K>(s[0].0, k));
            assert forall|i: int, j: int| 0 <= i < j < ks.len() implies #[trigger] key_lt::<K>(
                ks[i],
                ks[j],
            ) by {
                if i > 0 {
                    assert(key_lt::<K>(kt[i - 1], kt[j - 1]));
                } else {
                    assert(ks[j] == kt[j - 1]);
                    lemma_keys_insert_member::<K>(entry_keys(st), k, j - 1);
                    if kt[j - 1] == k {
                        // head is below k
                    } else {
                        let m = choose|m: int|
                            0 <= m < entry_keys(st).len() && entry_keys(st)[m] == kt[j - 1];
                        assert(entry_keys(s)[m + 1] == entry_keys(st)[m]);
                        assert(key_lt::<K>(entry_keys(s)[0], entry_keys(s)[m + 1]));
                    }
                    if ks[i] == ks[j] {
                        assert(false);
                    }
                }
            }
        }
    }
}

/// Every key of `keys_insert(ks, k)` is `k` or a key of `ks`.
proof fn lemma_keys_insert_member<K: DiffKey>(ks: Seq<<K as View>::V>, k: <K as View>::V, j: int)
    requires
        0 <= j < keys_insert::<K>(ks, k).len(),
    ensures
        keys_insert::<K>(ks, k)[j] == k || exists|m: int|
            0 <= m < ks.len() && ks[m] == keys_insert::<K>(ks, k)[j],
    decreases ks.len(),
{
    let t = keys_insert::<K>(ks, k);
    if ks.len() == 0 {
    } else if ks[0] == k {
    } else if K::key_le(k, ks[0]) {
        if j > 0 {
            assert(t[j] == ks[j - 1]);
        }
    } else {
        if j > 0 {
            lemma_keys_insert_member::<K>(ks.drop_first(), k, j - 1);
            let tt = keys_insert::<K>(ks.drop_first(), k);
            assert(t[j] == tt[j - 1]);
            if tt[j - 1] != k {
                let m = choose|m: int|
                    0 <= m < ks.drop_first().len() && ks.drop_first()[m] == tt[j - 1];
                assert(ks[m + 1] == tt[j - 1]);
            }
        }
    }
}

/// `map_remove` drops exactly the entry keyed by `k`, rewrites the key
/// sequence by `keys_remove`, and keeps it sorted.
pub proof fn lemma_map_remove_props<K: DiffKey, V>(s: Seq<(<K as View>::V, V)>, k: <K as View>::V)
    requires
        sorted_distinct::<K>(entry_keys(s)),
    ensures
        lookup(map_remove(s, k), k) is None,
        forall|k2: <K as View>::V|
            k2 != k ==> #[trigger] lookup(map_remove(s, k), k2) == lookup(s, k2),
        entry_keys(map_remove(s, k)) == keys_remove(entry_keys(s), k),
        sorted_distinct::<K>(entry_keys(map_remove(s, k))),
    decreases s.len(),
{
    let t = map_remove(s, k);
    if s.len() == 0 {
        assert(entry_keys(t) =~= keys_remove(entry_keys(s), k));
    } else if s[0].0 == k {
        assert(t == s.drop_first());
        assert(entry_keys(t) =~= entry_keys(s).drop_first());
        assert(keys_remove(entry_keys(s), k) == entry_keys(s).drop_first()) by {
            assert(entry_keys(s)[0] == k);
        }
        assert(forall|j: int|
            0 <= j < t.len() ==> entry_keys(t)[j] == entry_keys(s)[j + 1]);
        assert(sorted_distinct::<K>(entry_keys(t)));
        assert(lookup(t, k) is None) by {
            assert forall|j: int| 0 <= j < t.len() implies entry_keys(t)[j] != k by {
                assert(key_lt::<K>(entry_keys(s)[0], entry_keys(s)[j + 1]));
            }
            lemma_lookup_none(t, k);
        }
        assert forall|k2: <K as View>::V| k2 != k implies #[trigger] lookup(t, k2) == lookup(
            s,
            k2,
        ) by {}
    } else {
        let st = s.drop_first();
        assert(forall|j: int|
            0 <= j < st.len() ==> entry_keys(st)[j] == entry_keys(s)[j + 1]);
        assert(sorted_distinct::<K>(entry_keys(st)));
        lemma_map_remove_props::<K, V>(st, k);
        let tt = map_remove(st, k);
        assert(t == seq![s[0]] + tt);
        assert(t[0] == s[0]);
        assert(t.drop_first() =~= tt);
        assert(entry_keys(t) =~= seq![s[0].0] + entry_keys(tt));
        assert(keys_remove(entry_keys(s), k) == seq![entry_keys(s)[0]] + keys_remove(
            entry_keys(s).drop_first(),
            k,
        )) by {
            assert(entry_keys(s)[0] == s[0].0);
        }
        assert(entry_keys(s).drop_first() =~= entry_keys(st));
        assert(entry_keys(t) =~= keys_remove(entry_keys(s), k));
        assert(lookup(t, k) == lookup(tt, k));
        assert forall|k2: <K as View>::V| k2 != k implies #[trigger] lookup(t, k2) == lookup(
            s,
            k2,
        ) by {
            assert(lookup(tt, k2) == lookup(st, k2));
            assert(lookup(t, k2) == if t[0].0 == k2 {
                Some(t[0].1)
            } else {
                lookup(tt, k2)
            });
        }
        assert(sorted_distinct::<K>(entry_keys(t))) by {
            let ks = entry_keys(t);
            let kt = entry_keys(tt);
            assert forall|i: int, j: int| 0 <= i < j < ks.len() implies #[trigger] key_lt::<K>(
                ks[i],
                ks[j],
            ) by {
                if i > 0 {
                    assert(key_lt::<K>(kt[i - 1], kt[j - 1]));
                } else {
                    assert(ks[j] == kt[j - 1]);
                    lemma_keys_remove_member(entry_keys(st), k, j - 1);
                    let m = choose|m: int|
                        0 <= m < entry_keys(st).len() && entry_keys(st)[m] == kt[j - 1];
                    assert(entry_keys(s)[m + 1] == entry_keys(st)[m]);
                    assert(key_lt::<K>(entry_keys(s)[0], entry_keys(s)[m + 1]));
                }
            }
        }
    }
}

/// Every key of `keys_remove(ks, k)` is a key of `ks`.
proof fn lemma_keys_remove_member<KV>(ks: Seq<KV>, k: KV, j: int)
    requires
        0 <= j < keys_remove(ks, k).len(),
    ensures
        exists|m: int| 0 <= m < ks.len() && ks[m] == keys_remove(ks, k)[j],
    decreases ks.len(),
{
    let t = keys_remove(ks, k);
    if ks[0] == k {
        assert(ks[j + 1] == t[j]);
    } else {
        if j > 0 {
            lemma_keys_remove_member(ks.drop_first(), k, j - 1);
            let tt = keys_remove(ks.drop_first(), k);
            assert(t[j] == tt[j - 1]);
            let m = choose|m: int|
                0 <= m < ks.drop_first().len() && ks.drop_first()[m] == tt[j - 1];
            assert(ks[m + 1] == tt[j - 1]);
        } else {
            assert(t[0] == ks[0]);
        }
    }
}

/// Removing an absent key leaves the entries unchanged.
pub proof fn lemma_remove_absent<KV, V>(s: Seq<(KV, V)>, k: KV)
    requires
        lookup(s, k) is None,
    ensures
        map_remove(s, k) == s,
    decreases s.len(),
{
    if s.len() > 0 {
        lemma_remove_absent(s.drop_first(), k);
        assert(map_remove(s, k) =~= s);
    }
}

/// `map_insert` coincides with updating position `i` (when the key is found
/// there) or inserting before position `i` (when it is absent).
pub proof fn lemma_insert_positional<K: DiffKey, V>(
    s: Seq<(<K as View>::V, V)>,
    k: <K as View>::V,
    v: V,
    i: int,
    found: bool,
)
    requires
        sorted_distinct::<K>(entry_keys(s)),
        0 <= i <= s.len(),
        forall|j: int| 0 <= j < i ==> key_lt::<K>(entry_keys(s)[j], k),
        found ==> i < s.len() && entry_keys(s)[i] == k,
        !found && i < s.len() ==> key_lt::<K>(k, entry_keys(s)[i]),
    ensures
        found ==> map_insert::<K, V>(s, k, v) == s.update(i, (k, v)),
        !found ==> map_insert::<K, V>(s, k, v) == s.insert(i, (k, v)),
    decreases s.len(),
{
    let t = map_insert::<K, V>(s, k, v);
    if s.len() == 0 {
        assert(t =~= s.insert(0, (k, v)));
    } else if s[0].0 == k {
        assert(entry_keys(s)[0] == k);
        assert(i == 0) by {
            if i > 0 {
                assert(key_lt::<K>(entry_keys(s)[0], k));
            }
        }
        assert(t =~= s.update(0, (k, v)));
    } else if K::key_le(k, s[0].0) {
        assert(i == 0) by {
            if i > 0 {
                assert(key_lt::<K>(entry_keys(s)[0], k));
                K::lemma_le_antisym(k, entry_keys(s)[0]);
            }
        }
        assert(!found);
        assert(t =~= s.insert(0, (k, v)));
    } else {
        assert(i > 0) by {
            K::lemma_le_total(k, s[0].0);
            assert(entry_keys(s)[0] == s[0].0);
            if i == 0 && found {
                assert(entry_keys(s)[0] == k);
                assert(false);
            }
            if i == 0 && !found {
                assert(key_lt::<K>(k, entry_keys(s)[0]));
                assert(false);
            }
        }
        let st = s.drop_first();
        assert(forall|j: int|
            0 <= j < st.len() ==> entry_keys(st)[j] == entry_keys(s)[j + 1]);
        assert(sorted_distinct::<K>(entry_keys(st)));
        lemma_insert_positional::<K, V>(st, k, v, i - 1, found);
        if found {
            assert(t =~= s.update(i, (k, v)));
        } else {
            assert(t =~= s.insert(i, (k, v)));
        }
    }
}

/// `map_remove` of a present key coincides with deleting position `i`.
proof fn lemma_remove_positional<K: DiffKey, V>(s: Seq<(<K as View>::V, V)>, k: <K as View>::V, i: int)
    requires
        sorted_distinct::<K>(entry_keys(s)),
        0 <= i < s.len(),
        forall|j: int| 0 <= j < i ==> key_lt::<K>(entry_keys(s)[j], k),
        entry_keys(s)[i] == k,
    ensures
        map_remove(s, k) == s.remove(i),
    decreases s.len(),
{
    let t = map_remove(s, k);
    if s[0].0 == k {
        assert(entry_keys(s)[0] == k);
        assert(i == 0) by {
            if i > 0 {
                assert(key_lt::<K>(entry_keys(s)[0], k));
            }
        }
        assert(t =~= s.remove(0));
    } else {
        assert(entry_keys(s)[0] == s[0].0);
        assert(i > 0);
        let st = s.drop_first();
        assert(forall|j: int|
            0 <= j < st.len() ==> entry_keys(st)[j] == entry_keys(s)[j + 1]);
        assert(sorted_distinct::<K>(entry_keys(st)));
        lemma_remove_positional::<K, V>(st, k, i - 1);
        assert(t =~= s.remove(i));
    }
}


/// A key is stored in the entries exactly when it occurs among the keys.
pub proof fn lemma_has_key_contains<KV, V>(s: Seq<(KV, V)>, k: KV)
    ensures
        has_key(s, k) <==> entry_keys(s).contains(k),
    decreases s.len(),
{
    if s.len() > 0 {
        assert(entry_keys(s)[0] == s[0].0);
        assert(forall|j: int|
            0 <= j < s.len() - 1 ==> entry_keys(s.drop_first())[j] == entry_keys(s)[j + 1]);
        lemma_has_key_contains(s.drop_first(), k);
        if s[0].0 != k {
            if entry_keys(s).contains(k) {
                let j = choose|j: int| 0 <= j < entry_keys(s).len() && entry_keys(s)[j] == k;
                assert(entry_keys(s.drop_first())[j - 1] == k);
            }
            if entry_keys(s.drop_first()).contains(k) {
                let j = choose|j: int|
                    0 <= j < entry_keys(s.drop_first()).len() && entry_keys(s.drop_first())[j] == k;
                assert(entry_keys(s)[j + 1] == k);
            }
        }
    }
}

/// Every key of `keys_insert(ks, k)` is `k` itself or a key of `ks`.
pub proof fn lemma_keys_insert_contains<K: DiffKey>(
    ks: Seq<<K as View>::V>,
    k: <K as View>::V,
    k2: <K as View>::V,
)
    requires
        keys_insert::<K>(ks, k).contains(k2),
    ensures
        k2 == k || ks.contains(k2),
{
    let j = choose|j: int|
        0 <= j < keys_insert::<K>(ks, k).len() && keys_insert::<K>(ks, k)[j] == k2;
    lemma_keys_insert_member::<K>(ks, k, j);
}

/// Every key of `keys_remove(ks, k)` is a key of `ks`.
pub proof fn lemma_keys_remove_contains<KV>(ks: Seq<KV>, k: KV, k2: KV)
    requires
        keys_remove(ks, k).contains(k2),
    ensures
        ks.contains(k2),
{
    let j = choose|j: int| 0 <= j < keys_remove(ks, k).len() && keys_remove(ks, k)[j] == k2;
    lemma_keys_remove_member(ks, k, j);
}

/// Inserting under a key again after removing it is the same as inserting
/// over the entries as they were.
pub proof fn lemma_insert_after_remove<K: DiffKey, V>(
    s: Seq<(<K as View>::V, V)>,
    k: <K as View>::V,
    v: V,
)
    requires
        sorted_distinct::<K>(entry_keys(s)),
    ensures
        map_insert::<K, V>(map_remove(s, k), k, v) == map_insert::<K, V>(s, k, v),
    decreases s.len(),
{
    if s.len() == 0 {
    } else if s[0].0 == k {
        let t = s.drop_first();
        if t.len() > 0 {
            assert(entry_keys(s)[0] == s[0].0 && entry_keys(s)[1] == s[1].0);
            assert(key_lt::<K>(entry_keys(s)[0], entry_keys(s)[1]));
            assert(t[0] == s[1]);
            assert(map_insert::<K, V>(t, k, v) == seq![(k, v)] + t);
        } else {
            assert(map_insert::<K, V>(t, k, v) =~= seq![(k, v)] + t);
        }
    } else {
        let st = s.drop_first();
        assert(forall|j: int|
            0 <= j < st.len() ==> entry_keys(st)[j] == entry_keys(s)[j + 1]);
        assert(sorted_distinct::<K>(entry_keys(st)));
        lemma_insert_after_remove::<K, V>(st, k, v);
        let u = seq![s[0]] + map_remove(st, k);
        assert(map_remove(s, k) == u);
        assert(u[0] == s[0]);
        assert(u.drop_first() =~= map_remove(st, k));
        if K::key_le(k, s[0].0) {
            // the key is below every stored key, so nothing was removed
            assert forall|j: int| 0 <= j < st.len() implies entry_keys(st)[j] != k by {
                assert(entry_keys(s)[0] == s[0].0);
                assert(key_lt::<K>(entry_keys(s)[0], entry_keys(s)[j + 1]));
                if entry_keys(st)[j] == k {
                    K::lemma_le_trans(k, s[0].0, entry_keys(s)[j + 1]);
                    K::lemma_le_antisym(s[0].0, entry_keys(s)[j + 1]);
                    assert(false);
                }
            }
            lemma_lookup_none(st, k);
            lemma_remove_absent(st, k);
            assert(u =~= s);
        } else {
            assert(map_insert::<K, V>(u, k, v) == seq![u[0]] + map_insert::<K, V>(
                u.drop_first(),
                k,
                v,
            ));
            assert(map_insert::<K, V>(u, k, v) =~= map_insert::<K, V>(s, k, v));
        }
    }
}


/// Inserting a key already present leaves a sorted key sequence unchanged.
pub proof fn lemma_keys_insert_present<K: DiffKey>(ks: Seq<<K as View>::V>, k: <K as View>::V)
    requires
        sorted_distinct::<K>(ks),
        ks.contains(k),
    ensures
        keys_insert::<K>(ks, k) == ks,
    decreases ks.len(),
{
    let i = choose|i: int| 0 <= i < ks.len() && ks[i] == k;
    if ks[0] == k {
    } else {
        assert(i > 0);
        assert(key_lt::<K>(ks[0], ks[i]));
        if K::key_le(k, ks[0]) {
            K::lemma_le_trans(k, ks[0], ks[i]);
            K::lemma_le_antisym(ks[0], ks[i]);
            assert(false);
        }
        let kt = ks.drop_first();
        assert(forall|j: int| 0 <= j < kt.len() ==> kt[j] == ks[j + 1]);
        assert(sorted_distinct::<K>(kt)) by {
            assert forall|a: int, b: int| 0 <= a < b < kt.len() implies #[trigger] key_lt::<K>(
                kt[a],
                kt[b],
            ) by {
                assert(key_lt::<K>(ks[a + 1], ks[b + 1]));
            }
        }
        assert(kt.contains(k)) by {
            assert(kt[i - 1] == k);
        }
        lemma_keys_insert_present::<K>(kt, k);
        assert(keys_insert::<K>(ks, k) =~= ks);
    }
}

/// The views of a sequence of key/value pairs.
pub open spec fn pair_views<K: DiffKey, V>(s: Seq<(K, V)>) -> Seq<(<K as View>::V, V)> {
    s.map_values(|p: (K, V)| (p.0@, p.1))
}

/// The map holding exactly the given pairs, later pairs overriding earlier
/// ones that carry the same key.
pub open spec fn map_build<K: DiffKey, V>(
    s: Seq<(<K as View>::V, V)>,
) -> Seq<(<K as View>::V, V)>
    decreases s.len(),
{
    if s.len() == 0 {
        Seq::empty()
    } else {
        map_insert::<K, V>(map_build::<K, V>(s.drop_last()), s.last().0, s.last().1)
    }
}


/// A sequence without repeated elements.
pub open spec fn seq_distinct<KV>(ks: Seq<KV>) -> bool {
    forall|i: int, j: int| 0 <= i < j < ks.len() ==> ks[i] != ks[j]
}

/// Removing one key keeps every other key.
pub proof fn lemma_keys_remove_keeps<KV>(ks: Seq<KV>, k: KV, k2: KV)
    requires
        ks.contains(k2),
        k2 != k,
    ensures
        keys_remove(ks, k).contains(k2),
    decreases ks.len(),
{
    let t = keys_remove(ks, k);
    let w = choose|w: int| 0 <= w < ks.len() && ks[w] == k2;
    if ks[0] == k {
        assert(t[w - 1] == k2);
    } else if ks[0] == k2 {
        assert(t[0] == k2);
    } else {
        assert(ks.drop_first()[w - 1] == k2);
        lemma_keys_remove_keeps(ks.drop_first(), k, k2);
        let tt = keys_remove(ks.drop_first(), k);
        let w2 = choose|w2: int| 0 <= w2 < tt.len() && tt[w2] == k2;
        assert(t[w2 + 1] == k2);
    }
}

/// Removing a key from a duplicate-free sequence removes it for good.
pub proof fn lemma_keys_remove_gone<KV>(ks: Seq<KV>, k: KV)
    requires
        seq_distinct(ks),
    ensures
        !keys_remove(ks, k).contains(k),
    decreases ks.len(),
{
    if ks.len() > 0 {
        let t = keys_remove(ks, k);
        assert(forall|j: int|
            0 <= j < ks.len() - 1 ==> ks.drop_first()[j] == ks[j + 1]);
        assert(seq_distinct(ks.drop_first()));
        if ks[0] == k {
            if t.contains(k) {
                let w = choose|w: int| 0 <= w < t.len() && t[w] == k;
                assert(ks[w + 1] == k);
                assert(false);
            }
        } else {
            lemma_keys_remove_gone(ks.drop_first(), k);
            if t.contains(k) {
                let w = choose|w: int| 0 <= w < t.len() && t[w] == k;
                assert(w > 0);
                assert(keys_remove(ks.drop_first(), k)[w - 1] == k);
                assert(false);
            }
        }
    }
}

/// Removing a key from a duplicate-free sequence leaves it duplicate-free.
pub proof fn lemma_keys_remove_distinct<KV>(ks: Seq<KV>, k: KV)
    requires
        seq_distinct(ks),
    ensures
        seq_distinct(keys_remove(ks, k)),
    decreases ks.len(),
{
    if ks.len() > 0 {
        let t = keys_remove(ks, k);
        assert(forall|j: int|
            0 <= j < ks.len() - 1 ==> ks.drop_first()[j] == ks[j + 1]);
        assert(seq_distinct(ks.drop_first()));
        if ks[0] == k {
        } else {
            lemma_keys_remove_distinct(ks.drop_first(), k);
            let tt = keys_remove(ks.drop_first(), k);
            assert(seq_distinct(t)) by {
                assert forall|i: int, j: int| 0 <= i < j < t.len() implies t[i] != t[j] by {
                    if i > 0 {
                        assert(t[i] == tt[i - 1] && t[j] == tt[j - 1]);
                    } else {
                        assert(t[j] == tt[j - 1]);
                        lemma_keys_remove_member(ks.drop_first(), k, j - 1);
                        let m = choose|m: int|
                            0 <= m < ks.drop_first().len() && ks.drop_first()[m] == tt[j - 1];
                        assert(ks[m + 1] == tt[j - 1]);
                        assert(ks[0] != ks[m + 1]);
                    }
                }
            }
        }
    }
}

} // verus!
