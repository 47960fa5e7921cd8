use vstd::prelude::*;

use std::collections::BTreeMap;
use vstd::laws_cmp::obeys_cmp;

use crate::event::{applied, applied_all, Event};

verus! {

broadcast use {
    vstd::std_specs::btree::group_btree_axioms,
};

/// The value stored at `k`, if any.
pub open spec fn lookup<K, V>(m: Map<K, V>, k: K) -> Option<V> {
    if m.contains_key(k) {
        Some(m[k])
    } else {
        None
    }
}

/// What a store holds after taking `entries` in order, starting empty.
pub open spec fn map_from<K, V>(entries: Seq<(K, V)>) -> Map<K, V>
    decreases entries.len(),
{
    if entries.len() == 0 {
        Map::empty()
    } else {
        map_from(entries.drop_last()).insert(entries.last().0, entries.last().1)
    }
}

/// What `entries` hold, taken in order: each key present is held with the
/// value of its last entry.
proof fn lemma_map_from_keys<K, V>(entries: Seq<(K, V)>, k: K)
    ensures
        map_from(entries).contains_key(k) <==> exists|i: int|
            0 <= i < entries.len() && #[trigger] entries[i].0 == k,
    decreases entries.len(),
{
    if entries.len() > 0 {
        let prev = entries.drop_last();
        lemma_map_from_keys(prev, k);
        if exists|i: int| 0 <= i < prev.len() && #[trigger] prev[i].0 == k {
            let i = choose|i: int| 0 <= i < prev.len() && #[trigger] prev[i].0 == k;
            assert(entries[i].0 == k);
        }
        if exists|i: int| 0 <= i < entries.len() && #[trigger] entries[i].0 == k {
            let i = choose|i: int| 0 <= i < entries.len() && #[trigger] entries[i].0 == k;
            if i < entries.len() - 1 {
                assert(prev[i].0 == k);
            }
        }
    }
}

proof fn lemma_map_from_values<K, V>(entries: Seq<(K, V)>, i: int)
    requires
        0 <= i < entries.len(),
        forall|a: int, b: int|
            0 <= a < b < entries.len() ==> #[trigger] entries[a].0 != #[trigger] entries[b].0,
    ensures
        map_from(entries).contains_key(entries[i].0),
        map_from(entries)[entries[i].0] == entries[i].1,
    decreases entries.len(),
{
    if i < entries.len() - 1 {
        let prev = entries.drop_last();
        assert(prev[i] == entries[i]);
        lemma_map_from_values(prev, i);
        assert(entries.last().0 != entries[i].0);
    }
}

/// A store rebuilt from a view's entries, each key of the view once with its
/// value, holds exactly what the view holds.
pub proof fn lemma_rebuild_holds_source<K, V>(source: Map<K, V>, entries: Seq<(K, V)>)
    requires
        forall|a: int, b: int|
            0 <= a < b < entries.len() ==> #[trigger] entries[a].0 != #[trigger] entries[b].0,
        forall|i: int|
            0 <= i < entries.len() ==> source.contains_key(#[trigger] entries[i].0) && source[entries[i].0]
                == entries[i].1,
        forall|k: K| #[trigger]
            source.contains_key(k) ==> exists|i: int| 0 <= i < entries.len() && entries[i].0 == k,
    ensures
        map_from(entries) == source,
{
    let m = map_from(entries);
    assert forall|k: K| #[trigger] m.contains_key(k) <==> source.contains_key(k) by {
        lemma_map_from_keys(entries, k);
        if m.contains_key(k) {
            let i = choose|i: int| 0 <= i < entries.len() && #[trigger] entries[i].0 == k;
        }
    }
    assert forall|k: K| #[trigger] m.contains_key(k) implies m[k] == source[k] by {
        lemma_map_from_keys(entries, k);
        let i = choose|i: int| 0 <= i < entries.len() && #[trigger] entries[i].0 == k;
        lemma_map_from_values(entries, i);
    }
    assert(m =~= source);
}

/// A store that holds what a view holds, and then takes the view's events,
/// answers every read as the view does.
pub proof fn lemma_stored_answers_as_source<K, V>(
    source: Map<K, V>,
    stored: Map<K, V>,
    events: Seq<Event<K, V>>,
    k: K,
)
    requires
        stored == source,
    ensures
        lookup(applied_all(stored, events), k) == lookup(applied_all(source, events), k),
{
}

/// An ordered store held in memory; also the store in which a materialized
/// view keeps its copy.
pub struct Loaded<K, V> {
    inner: BTreeMap<K, V>,
}

impl<K, V> View for Loaded<K, V> {
    type V = Map<K, V>;

    closed spec fn view(&self) -> Map<K, V> {
        self.inner@
    }
}

/// A key and the value taken out of a store for it, to be put back with
/// [`Loaded::put_back`]; one without a value removes the key.
pub struct Entry<K, V> {
    key: K,
    value: Option<V>,
}

impl<K, V> Entry<K, V> {
    pub closed spec fn key_of(&self) -> K {
        self.key
    }

    pub closed spec fn value_of(&self) -> Option<V> {
        self.value
    }

    /// Gives the entry the value `f` makes, if it has none.
    pub fn or_insert_with<F: FnOnce() -> V>(&mut self, f: F) -> (r: &V)
        requires
            f.requires(()),
        ensures
            final(self).key_of() == old(self).key_of(),
            old(self).value_of() matches Some(v) ==> final(self).value_of() == Some(v),
            old(self).value_of() is None ==> (final(self).value_of() matches Some(v) && f.ensures(
                (),
                v,
            )),
            final(self).value_of() == Some(*r),
    {
        if self.value.is_none() {
            self.value = Some(f());
        }
        self.value.as_ref().unwrap()
    }

    /// Takes the value out of the entry, so that putting it back removes the key.
    pub fn remove(&mut self) -> (r: Option<V>)
        ensures
            final(self).key_of() == old(self).key_of(),
            final(self).value_of() is None,
            r == old(self).value_of(),
    {
        self.value.take()
    }

    /// The value of the entry.
    pub fn value(&self) -> (r: Option<&V>)
        ensures
            r == match self.value_of() {
                Some(v) => Some(&v),
                None => None,
            },
    {
        self.value.as_ref()
    }
}

impl<K: Ord, V> Loaded<K, V> {
    /// An empty store.
    pub fn new() -> (r: Self)
        ensures
            r@ == Map::<K, V>::empty(),
    {
        Loaded { inner: BTreeMap::new() }
    }

    /// The value stored at `key`.
    pub fn get(&self, key: &K) -> (r: Option<&V>)
        ensures
            obeys_cmp::<K>() ==> r == match lookup(self@, *key) {
                Some(v) => Some(&v),
                None => None,
            },
    {
        self.inner.get(key)
    }

    /// Whether a value is stored at `key`.
    pub fn contains_key(&self, key: &K) -> (r: bool)
        ensures
            obeys_cmp::<K>() ==> r == self@.contains_key(*key),
    {
        self.inner.contains_key(key)
    }

    /// Stores `value` at `key` and returns what was there before.
    pub fn insert(&mut self, key: K, value: V) -> (r: Option<V>)
        ensures
            obeys_cmp::<K>() ==> final(self)@ == old(self)@.insert(key, value),
            obeys_cmp::<K>() ==> r == lookup(old(self)@, key),
    {
        self.inner.insert(key, value)
    }

    /// Removes what is stored at `key` and returns it.
    pub fn remove(&mut self, key: &K) -> (r: Option<V>)
        ensures
            obeys_cmp::<K>() ==> final(self)@ == old(self)@.remove(*key),
            obeys_cmp::<K>() ==> r == lookup(old(self)@, *key),
    {
        self.inner.remove(key)
    }

    /// Removes everything.
    pub fn clear(&mut self)
        ensures
            final(self)@ == Map::<K, V>::empty(),
    {
        self.inner.clear()
    }

    /// Whether nothing is stored.
    pub fn is_empty(&self) -> (r: bool)
        ensures
            obeys_cmp::<K>() ==> r == (self@.len() == 0),
    {
        self.inner.is_empty()
    }

    /// Number of stored keys.
    pub fn len(&self) -> (r: usize)
        ensures
            obeys_cmp::<K>() ==> r == self@.len(),
    {
        self.inner.len()
    }

    /// Takes the value at `key` out of the store into an entry.
    pub fn entry(&mut self, key: K) -> (r: Entry<K, V>)
        ensures
            obeys_cmp::<K>() ==> final(self)@ == old(self)@.remove(key),
            r.key_of() == key,
            obeys_cmp::<K>() ==> r.value_of() == lookup(old(self)@, key),
    {
        let value = self.inner.remove(&key);
        Entry { key, value }
    }

    /// Writes an entry back: its value if it has one, else nothing at its key.
    pub fn put_back(&mut self, entry: Entry<K, V>)
        ensures
            obeys_cmp::<K>() ==> final(self)@ == match entry.value_of() {
                Some(v) => old(self)@.insert(entry.key_of(), v),
                None => old(self)@.remove(entry.key_of()),
            },
    {
        match entry.value {
            Some(v) => {
                self.inner.insert(entry.key, v);
            },
            None => {
                self.inner.remove(&entry.key);
            },
        }
    }

    /// Replaces the value at `key` with what `f` makes of the value there;
    /// `None` removes it. Returns the value there before. Other handles
    /// cannot write in between, as the store is held exclusively.
    pub fn fetch_and_update<F: FnOnce(Option<&V>) -> Option<V>>(&mut self, key: K, f: F) -> (r:
        Option<V>)
        requires
            forall|o: Option<&V>| f.requires((o,)),
        ensures
            obeys_cmp::<K>() ==> r == lookup(old(self)@, key),
            obeys_cmp::<K>() ==> f.ensures(
                (
                    match lookup(old(self)@, key) {
                        Some(v) => Some(&v),
                        None => None,
                    },
                ),
                lookup(final(self)@, key),
            ),
            obeys_cmp::<K>() ==> final(self)@.remove(key) == old(self)@.remove(key),
    {
        let prior = self.inner.remove(&key);
        let next = f(prior.as_ref());
        match next {
            Some(v) => {
                self.inner.insert(key, v);
            },
            None => {},
        }
        proof {
            if obeys_cmp::<K>() {
                assert(self@.remove(key) =~= old(self)@.remove(key));
            }
        }
        prior
    }

    /// Takes an event of the view this store mirrors.
    pub fn apply(&mut self, event: Event<K, V>)
        ensures
            obeys_cmp::<K>() ==> final(self)@ == applied(old(self)@, event),
    {
        match event {
            Event::Insert { key, value } => {
                self.inner.insert(key, value);
            },
            Event::Remove { key } => {
                self.inner.remove(&key);
            },
        }
    }

    /// Replaces the contents with `entries`, as a materialized view does
    /// when it rebuilds from its source.
    pub fn rebuild(&mut self, entries: Vec<(K, V)>)
        ensures
            obeys_cmp::<K>() ==> final(self)@ == map_from(entries@),
    {
        self.inner.clear();
        let ghost all = entries@;
        let mut entries = entries;
        // Taken from the back, then stored from the front.
        let mut rev: Vec<(K, V)> = Vec::new();
        while entries.len() > 0
            invariant
                entries@ + rev@.reverse() == all,
            decreases entries.len(),
        {
            let e = entries.pop().unwrap();
            proof {
                assert(entries@ + (rev@.push(e)).reverse() =~= all);
            }
            rev.push(e);
        }
        assert(rev@.reverse() =~= all);
        let ghost mut n: int = 0;
        assert(all.take(0) =~= Seq::<(K, V)>::empty());
        while rev.len() > 0
            invariant
                0 <= n <= all.len(),
                n + rev@.len() == all.len(),
                rev@.reverse() == all.subrange(n, all.len() as int),
                obeys_cmp::<K>() ==> self.inner@ == map_from(all.take(n)),
            decreases rev.len(),
        {
            let ghost r0 = rev@;
            let (k, v) = rev.pop().unwrap();
            proof {
                assert(r0.reverse()[0] == r0.last());
                assert(rev@ == r0.drop_last());
                assert(r0.reverse().drop_first() =~= rev@.reverse());
                assert(all.subrange(n, all.len() as int).drop_first() =~= all.subrange(
                    n + 1,
                    all.len() as int,
                ));
                assert(all.subrange(n, all.len() as int)[0] == (k, v));
                assert(rev@.reverse() =~= all.subrange(n + 1, all.len() as int));
                assert(all.take(n + 1).drop_last() =~= all.take(n));
            }
            self.inner.insert(k, v);
            proof {
                n = n + 1;
            }
        }
        assert(all.subrange(n, all.len() as int).len() == 0);
        assert(all.take(n) =~= all);
    }
}

} // verus!
