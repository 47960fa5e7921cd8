use vstd::prelude::*;

use vstd::laws_cmp::obeys_cmp;

use crate::index::clones_equal;
use crate::loaded::{lookup, Loaded};

verus! {

/// The value behind a reference, if there is one.
pub open spec fn owned<V>(o: Option<&V>) -> Option<V> {
    match o {
        Some(v) => Some(*v),
        None => None,
    }
}

/// `after` is what an inserter with conversion `inserter` stores when `f`,
/// given `prior`, makes an insert (or `None`, which removes).
pub open spec fn converted<V, I, G: FnOnce(Option<&V>) -> Option<I>, F: Fn(I) -> V>(
    f: G,
    inserter: F,
    prior: Option<&V>,
    after: Option<V>,
) -> bool {
    exists|i: Option<I>|
        #[trigger] f.ensures((prior,), i) && match i {
            Some(x) => after is Some && inserter.ensures((x,), after->Some_0),
            None => after is None,
        }
}

/// The value at a key before the `i`-th merge, when it held `start` before
/// the first one and `vals[j]` after the `j`-th.
pub open spec fn before_merge<V>(start: Option<V>, vals: Seq<V>, i: int) -> Option<V> {
    if i == 0 {
        start
    } else {
        Some(vals[i - 1])
    }
}

/// `vals` are the values that a reducer leaves at a key that held `start`,
/// after each of the merges `ms`, inserted there one after another.
pub open spec fn folds<V, M, F: Fn(Option<V>, M) -> V>(
    r: F,
    start: Option<V>,
    ms: Seq<M>,
    vals: Seq<V>,
) -> bool {
    &&& vals.len() == ms.len()
    &&& forall|i: int|
        0 <= i < ms.len() ==> r.ensures((before_merge(start, vals, i), ms[i]), #[trigger] vals[i])
}

/// Inserting through a reducer folds the merges into the stored value: one
/// more insert of `m` extends the fold of the earlier merges by `m`.
pub proof fn lemma_reducer_folds<V, M, F: Fn(Option<V>, M) -> V>(
    r: F,
    start: Option<V>,
    ms: Seq<M>,
    vals: Seq<V>,
    m: M,
    end: V,
)
    requires
        folds(r, start, ms, vals),
        r.ensures((before_merge(start, vals, ms.len() as int), m), end),
    ensures
        folds(r, start, ms.push(m), vals.push(end)),
{
    let ms2 = ms.push(m);
    let vals2 = vals.push(end);
    assert forall|i: int| 0 <= i < ms2.len() implies r.ensures(
        (before_merge(start, vals2, i), ms2[i]),
        #[trigger] vals2[i],
    ) by {
        if i < ms.len() {
            assert(vals2[i] == vals[i]);
            assert(before_merge(start, vals2, i) == before_merge(start, vals, i));
        }
    }
}

/// A store whose inserts are merged into the value already there:
/// inserting `m` at `k` stores `reducer(old value, m)`.
#[verifier::reject_recursive_types(V)]
#[verifier::reject_recursive_types(M)]
pub struct Reducer<K, V, M, F: Fn(Option<V>, M) -> V> {
    from: Loaded<K, V>,
    reducer: F,
    merge: core::marker::PhantomData<M>,
}

impl<K: Ord, V: Clone, M, F: Fn(Option<V>, M) -> V> Reducer<K, V, M, F> {
    pub closed spec fn store_of(&self) -> Loaded<K, V> {
        self.from
    }

    pub closed spec fn reducer_of(&self) -> F {
        self.reducer
    }

    /// Wraps `from` so that inserts go through `reducer`.
    pub fn new(from: Loaded<K, V>, reducer: F) -> (r: Self)
        ensures
            r.store_of() == from,
            r.reducer_of() == reducer,
    {
        Reducer { from, reducer, merge: core::marker::PhantomData }
    }

    /// Merges `m` into the value at `key`, reading and writing it in one
    /// step, and returns the value there before.
    pub fn insert(&mut self, key: K, m: M) -> (r: Option<V>)
        requires
            forall|o: Option<V>, x: M| old(self).reducer_of().requires((o, x)),
        ensures
            final(self).reducer_of() == old(self).reducer_of(),
            obeys_cmp::<K>() ==> r == lookup(old(self).store_of()@, key),
            obeys_cmp::<K>() ==> final(self).store_of()@.remove(key) == old(
                self,
            ).store_of()@.remove(key),
            obeys_cmp::<K>() ==> final(self).store_of()@.contains_key(key),
            obeys_cmp::<K>() && clones_equal::<V>() ==> old(self).reducer_of().ensures(
                (lookup(old(self).store_of()@, key), m),
                final(self).store_of()@[key],
            ),
    {
        let reducer = &self.reducer;
        assert forall|o: Option<V>| reducer.requires((o, m)) by {
            assert(old(self).reducer_of().requires((o, m)));
        }
        let merge = move |o: Option<&V>| -> (out: Option<V>)
            requires
                forall|c: Option<V>| reducer.requires((c, m)),
            ensures
                out is Some,
                clones_equal::<V>() ==> reducer.ensures((owned(o), m), out->Some_0),
            {
                let c = o.cloned();
                Some(reducer(c, m))
            };
        assert(forall|o: Option<&V>| merge.requires((o,)));
        self.from.fetch_and_update(key, merge)
    }

    /// The value at `key`.
    pub fn get(&self, key: &K) -> (r: Option<&V>)
        ensures
            obeys_cmp::<K>() ==> r == match lookup(self.store_of()@, *key) {
                Some(v) => Some(&v),
                None => None,
            },
    {
        self.from.get(key)
    }

    /// Removes the value at `key`, bypassing the reducer.
    pub fn remove(&mut self, key: &K) -> (r: Option<V>)
        ensures
            final(self).reducer_of() == old(self).reducer_of(),
            obeys_cmp::<K>() ==> final(self).store_of()@ == old(self).store_of()@.remove(*key),
            obeys_cmp::<K>() ==> r == lookup(old(self).store_of()@, *key),
    {
        self.from.remove(key)
    }

    /// The store written through.
    pub fn store(&self) -> (r: &Loaded<K, V>)
        ensures
            *r == self.store_of(),
    {
        &self.from
    }
}

/// As [`Reducer`], for merges that the reducer reads by reference.
#[verifier::reject_recursive_types(V)]
#[verifier::reject_recursive_types(M)]
pub struct Reduce<K, V, M, F: Fn(Option<V>, &M) -> V> {
    from: Loaded<K, V>,
    reducer: F,
    merge: core::marker::PhantomData<M>,
}

impl<K: Ord, V: Clone, M, F: Fn(Option<V>, &M) -> V> Reduce<K, V, M, F> {
    pub closed spec fn store_of(&self) -> Loaded<K, V> {
        self.from
    }

    pub closed spec fn reducer_of(&self) -> F {
        self.reducer
    }

    /// Wraps `from` so that inserts go through `reducer`.
    pub fn new(from: Loaded<K, V>, reducer: F) -> (r: Self)
        ensures
            r.store_of() == from,
            r.reducer_of() == reducer,
    {
        Reduce { from, reducer, merge: core::marker::PhantomData }
    }

    /// Merges `m` into the value at `key`, reading and writing it in one
    /// step, and returns the value there before.
    pub fn insert(&mut self, key: K, m: &M) -> (r: Option<V>)
        requires
            forall|o: Option<V>, x: &M| old(self).reducer_of().requires((o, x)),
        ensures
            final(self).reducer_of() == old(self).reducer_of(),
            obeys_cmp::<K>() ==> r == lookup(old(self).store_of()@, key),
            obeys_cmp::<K>() ==> final(self).store_of()@.remove(key) == old(
                self,
            ).store_of()@.remove(key),
            obeys_cmp::<K>() ==> final(self).store_of()@.contains_key(key),
            obeys_cmp::<K>() && clones_equal::<V>() ==> old(self).reducer_of().ensures(
                (lookup(old(self).store_of()@, key), m),
                final(self).store_of()@[key],
            ),
    {
        let reducer = &self.reducer;
        assert forall|o: Option<V>| reducer.requires((o, m)) by {
            assert(old(self).reducer_of().requires((o, m)));
        }
        let merge = move |o: Option<&V>| -> (out: Option<V>)
            requires
                forall|c: Option<V>| reducer.requires((c, m)),
            ensures
                out is Some,
                clones_equal::<V>() ==> reducer.ensures((owned(o), m), out->Some_0),
            {
                let c = o.cloned();
                Some(reducer(c, m))
            };
        assert(forall|o: Option<&V>| merge.requires((o,)));
        self.from.fetch_and_update(key, merge)
    }

    /// The value at `key`.
    pub fn get(&self, key: &K) -> (r: Option<&V>)
        ensures
            obeys_cmp::<K>() ==> r == match lookup(self.store_of()@, *key) {
                Some(v) => Some(&v),
                None => None,
            },
    {
        self.from.get(key)
    }

    /// Removes the value at `key`, bypassing the reducer.
    pub fn remove(&mut self, key: &K) -> (r: Option<V>)
        ensures
            final(self).reducer_of() == old(self).reducer_of(),
            obeys_cmp::<K>() ==> final(self).store_of()@ == old(self).store_of()@.remove(*key),
            obeys_cmp::<K>() ==> r == lookup(old(self).store_of()@, *key),
    {
        self.from.remove(key)
    }

    /// The store written through.
    pub fn store(&self) -> (r: &Loaded<K, V>)
        ensures
            *r == self.store_of(),
    {
        &self.from
    }
}

/// As [`Reducer`], but a reducer that gives `None` removes the key.
#[verifier::reject_recursive_types(V)]
#[verifier::reject_recursive_types(M)]
pub struct FilterReducer<K, V, M, F: Fn(Option<V>, M) -> Option<V>> {
    from: Loaded<K, V>,
    reducer: F,
    merge: core::marker::PhantomData<M>,
}

impl<K: Ord, V: Clone, M, F: Fn(Option<V>, M) -> Option<V>> FilterReducer<K, V, M, F> {
    pub closed spec fn store_of(&self) -> Loaded<K, V> {
        self.from
    }

    pub closed spec fn reducer_of(&self) -> F {
        self.reducer
    }

    /// Wraps `from` so that inserts go through `reducer`.
    pub fn new(from: Loaded<K, V>, reducer: F) -> (r: Self)
        ensures
            r.store_of() == from,
            r.reducer_of() == reducer,
    {
        FilterReducer { from, reducer, merge: core::marker::PhantomData }
    }

    /// Merges `m` into the value at `key`, where a merge to `None` removes
    /// the key, and returns the value there before.
    pub fn insert(&mut self, key: K, m: M) -> (r: Option<V>)
        requires
            forall|o: Option<V>, x: M| old(self).reducer_of().requires((o, x)),
        ensures
            final(self).reducer_of() == old(self).reducer_of(),
            obeys_cmp::<K>() ==> r == lookup(old(self).store_of()@, key),
            obeys_cmp::<K>() ==> final(self).store_of()@.remove(key) == old(
                self,
            ).store_of()@.remove(key),
            obeys_cmp::<K>() && clones_equal::<V>() ==> old(self).reducer_of().ensures(
                (lookup(old(self).store_of()@, key), m),
                lookup(final(self).store_of()@, key),
            ),
    {
        let reducer = &self.reducer;
        assert forall|o: Option<V>| reducer.requires((o, m)) by {
            assert(old(self).reducer_of().requires((o, m)));
        }
        let merge = move |o: Option<&V>| -> (out: Option<V>)
            requires
                forall|c: Option<V>| reducer.requires((c, m)),
            ensures
                clones_equal::<V>() ==> reducer.ensures((owned(o), m), out),
            {
                let c = o.cloned();
                reducer(c, m)
            };
        assert(forall|o: Option<&V>| merge.requires((o,)));
        self.from.fetch_and_update(key, merge)
    }

    /// The value at `key`.
    pub fn get(&self, key: &K) -> (r: Option<&V>)
        ensures
            obeys_cmp::<K>() ==> r == match lookup(self.store_of()@, *key) {
                Some(v) => Some(&v),
                None => None,
            },
    {
        self.from.get(key)
    }

    /// Removes the value at `key`, bypassing the reducer.
    pub fn remove(&mut self, key: &K) -> (r: Option<V>)
        ensures
            final(self).reducer_of() == old(self).reducer_of(),
            obeys_cmp::<K>() ==> final(self).store_of()@ == old(self).store_of()@.remove(*key),
            obeys_cmp::<K>() ==> r == lookup(old(self).store_of()@, *key),
    {
        self.from.remove(key)
    }

    /// The store written through.
    pub fn store(&self) -> (r: &Loaded<K, V>)
        ensures
            *r == self.store_of(),
    {
        &self.from
    }
}

/// A store whose inserts are converted first: inserting `i` stores `inserter(i)`.
#[verifier::reject_recursive_types(V)]
#[verifier::reject_recursive_types(I)]
pub struct Inserter<K, V, I, F: Fn(I) -> V> {
    from: Loaded<K, V>,
    inserter: F,
    insert: core::marker::PhantomData<I>,
}

impl<K: Ord, V, I, F: Fn(I) -> V> Inserter<K, V, I, F> {
    pub closed spec fn store_of(&self) -> Loaded<K, V> {
        self.from
    }

    pub closed spec fn inserter_of(&self) -> F {
        self.inserter
    }

    /// Wraps `from` so that inserts go through `inserter`.
    pub fn new(from: Loaded<K, V>, inserter: F) -> (r: Self)
        ensures
            r.store_of() == from,
            r.inserter_of() == inserter,
    {
        Inserter { from, inserter, insert: core::marker::PhantomData }
    }

    /// Stores the conversion of `i` at `key` and returns the value there before.
    pub fn insert(&mut self, key: K, i: I) -> (r: Option<V>)
        requires
            forall|x: I| old(self).inserter_of().requires((x,)),
        ensures
            final(self).inserter_of() == old(self).inserter_of(),
            obeys_cmp::<K>() ==> (final(self).store_of()@.contains_key(key) && old(
                self,
            ).inserter_of().ensures((i,), final(self).store_of()@[key])),
            obeys_cmp::<K>() ==> final(self).store_of()@.remove(key) == old(
                self,
            ).store_of()@.remove(key),
            obeys_cmp::<K>() ==> r == lookup(old(self).store_of()@, key),
    {
        assert(old(self).inserter_of().requires((i,)));
        let v = (self.inserter)(i);
        let r = self.from.insert(key, v);
        proof {
            if obeys_cmp::<K>() {
                assert(self.from@.remove(key) =~= old(self).from@.remove(key));
            }
        }
        r
    }

    /// The value at `key`.
    pub fn get(&self, key: &K) -> (r: Option<&V>)
        ensures
            obeys_cmp::<K>() ==> r == match lookup(self.store_of()@, *key) {
                Some(v) => Some(&v),
                None => None,
            },
    {
        self.from.get(key)
    }

    /// Removes the value at `key`, bypassing the conversion.
    pub fn remove(&mut self, key: &K) -> (r: Option<V>)
        ensures
            final(self).inserter_of() == old(self).inserter_of(),
            obeys_cmp::<K>() ==> final(self).store_of()@ == old(self).store_of()@.remove(*key),
            obeys_cmp::<K>() ==> r == lookup(old(self).store_of()@, *key),
    {
        self.from.remove(key)
    }

    /// Replaces the value at `key` in one step: `f` makes an insert of the
    /// value there, or `None` to remove it, and the inserter converts that
    /// insert before it is stored. Returns the value there before.
    pub fn fetch_and_update<G: FnOnce(Option<&V>) -> Option<I>>(&mut self, key: K, f: G) -> (r:
        Option<V>)
        requires
            forall|x: I| old(self).inserter_of().requires((x,)),
            forall|o: Option<&V>| f.requires((o,)),
        ensures
            final(self).inserter_of() == old(self).inserter_of(),
            obeys_cmp::<K>() ==> r == lookup(old(self).store_of()@, key),
            obeys_cmp::<K>() ==> final(self).store_of()@.remove(key) == old(
                self,
            ).store_of()@.remove(key),
            obeys_cmp::<K>() ==> converted(
                f,
                old(self).inserter_of(),
                match lookup(old(self).store_of()@, key) {
                    Some(v) => Some(&v),
                    None => None,
                },
                lookup(final(self).store_of()@, key),
            ),
    {
        let inserter = &self.inserter;
        assert forall|x: I| inserter.requires((x,)) by {
            assert(old(self).inserter_of().requires((x,)));
        }
        let composed = move |o: Option<&V>| -> (out: Option<V>)
            requires
                f.requires((o,)),
                forall|x: I| inserter.requires((x,)),
            ensures
                converted(f, *inserter, o, out),
            {
                let made = f(o);
                match made {
                    Some(x) => Some(inserter(x)),
                    None => None,
                }
            };
        self.from.fetch_and_update(key, composed)
    }

    /// The store written through.
    pub fn store(&self) -> (r: &Loaded<K, V>)
        ensures
            *r == self.store_of(),
    {
        &self.from
    }
}

/// As [`Inserter`], but a conversion to `None` removes the key.
#[verifier::reject_recursive_types(V)]
#[verifier::reject_recursive_types(I)]
pub struct FilterInserter<K, V, I, F: Fn(I) -> Option<V>> {
    from: Loaded<K, V>,
    inserter: F,
    insert: core::marker::PhantomData<I>,
}

impl<K: Ord, V, I, F: Fn(I) -> Option<V>> FilterInserter<K, V, I, F> {
    pub closed spec fn store_of(&self) -> Loaded<K, V> {
        self.from
    }

    pub closed spec fn inserter_of(&self) -> F {
        self.inserter
    }

    /// Wraps `from` so that inserts go through `inserter`.
    pub fn new(from: Loaded<K, V>, inserter: F) -> (r: Self)
        ensures
            r.store_of() == from,
            r.inserter_of() == inserter,
    {
        FilterInserter { from, inserter, insert: core::marker::PhantomData }
    }

    /// Stores the conversion of `i` at `key`, or removes the key where the
    /// conversion gives `None`; returns the value there before.
    pub fn insert(&mut self, key: K, i: I) -> (r: Option<V>)
        requires
            forall|x: I| old(self).inserter_of().requires((x,)),
        ensures
            final(self).inserter_of() == old(self).inserter_of(),
            obeys_cmp::<K>() ==> old(self).inserter_of().ensures(
                (i,),
                lookup(final(self).store_of()@, key),
            ),
            obeys_cmp::<K>() ==> final(self).store_of()@.remove(key) == old(
                self,
            ).store_of()@.remove(key),
            obeys_cmp::<K>() ==> r == lookup(old(self).store_of()@, key),
    {
        assert(old(self).inserter_of().requires((i,)));
        let converted = (self.inserter)(i);
        let r = match converted {
            Some(v) => self.from.insert(key, v),
            None => self.from.remove(&key),
        };
        proof {
            if obeys_cmp::<K>() {
                assert(self.from@.remove(key) =~= old(self).from@.remove(key));
            }
        }
        r
    }

    /// The value at `key`.
    pub fn get(&self, key: &K) -> (r: Option<&V>)
        ensures
            obeys_cmp::<K>() ==> r == match lookup(self.store_of()@, *key) {
                Some(v) => Some(&v),
                None => None,
            },
    {
        self.from.get(key)
    }

    /// Removes the value at `key`, bypassing the conversion.
    pub fn remove(&mut self, key: &K) -> (r: Option<V>)
        ensures
            final(self).inserter_of() == old(self).inserter_of(),
            obeys_cmp::<K>() ==> final(self).store_of()@ == old(self).store_of()@.remove(*key),
            obeys_cmp::<K>() ==> r == lookup(old(self).store_of()@, *key),
    {
        self.from.remove(key)
    }

    /// The store written through.
    pub fn store(&self) -> (r: &Loaded<K, V>)
        ensures
            *r == self.store_of(),
    {
        &self.from
    }
}

} // verus!
