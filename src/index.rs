use vstd::prelude::*;

use vstd::laws_cmp::obeys_cmp;
use vstd::pervasive::strictly_cloned;

use crate::event::Event;
use crate::loaded::Loaded;
use crate::stage::reversed;
use crate::stable_vec::{
    lemma_first_vacant_bound, lemma_live_append, lemma_live_contains, lemma_live_index,
    lemma_live_single, first_vacant, live_index,
    live, pushed, StableVec,
};

verus! {

/// Cloning a value of `T` gives an equal value.
pub open spec fn clones_equal<T: Clone>() -> bool {
    forall|a: T, b: T| #[trigger] strictly_cloned(a, b) ==> a == b
}

/// Slot `pos` of the forward list at `ik` holds the source key `k`.
pub open spec fn holds<K, I, X>(fwd: Map<I, StableVec<(K, X)>>, ik: I, pos: usize, k: K) -> bool {
    &&& fwd.contains_key(ik)
    &&& pos < fwd[ik]@.len()
    &&& fwd[ik]@[pos as int] is Some
    &&& fwd[ik]@[pos as int]->Some_0.0 == k
}

/// The backward list of `k` records slot `pos` of the forward list at `ik`.
pub open spec fn records<K, I>(bwd: Map<K, StableVec<(I, usize)>>, k: K, ik: I, pos: usize) -> bool {
    &&& bwd.contains_key(k)
    &&& exists|j: int| 0 <= j < bwd[k]@.len() && bwd[k]@[j] == Some((ik, pos))
}

/// Every recorded slot holds the key that records it.
pub open spec fn backed<K, I, X>(fwd: Map<I, StableVec<(K, X)>>, bwd: Map<K, StableVec<(I, usize)>>) -> bool {
    forall|k: K, ik: I, pos: usize| #[trigger] records(bwd, k, ik, pos) ==> holds(fwd, ik, pos, k)
}

/// Every taken slot is recorded by the key it holds.
pub open spec fn covered<K, I, X>(fwd: Map<I, StableVec<(K, X)>>, bwd: Map<K, StableVec<(I, usize)>>) -> bool {
    forall|ik: I, pos: usize, k: K| #[trigger] holds(fwd, ik, pos, k) ==> records(bwd, k, ik, pos)
}

/// The forward list at `ik` has a taken slot.
pub open spec fn occupied<K, I, X>(fwd: Map<I, StableVec<(K, X)>>, ik: I) -> bool {
    exists|pos: usize, k: K| holds(fwd, ik, pos, k)
}

/// The forward and backward maps describe the same pairs, and no forward
/// list is empty.
pub open spec fn consistent<K, I, X>(fwd: Map<I, StableVec<(K, X)>>, bwd: Map<K, StableVec<(I, usize)>>) -> bool {
    &&& backed(fwd, bwd)
    &&& covered(fwd, bwd)
    &&& forall|ik: I| #[trigger] fwd.contains_key(ik) ==> occupied(fwd, ik)
}

/// Every taken slot is recorded by the key it holds, but for slots holding
/// `key`, which are among `extra` instead.
pub open spec fn covered_but<K, I, X>(
    fwd: Map<I, StableVec<(K, X)>>,
    bwd: Map<K, StableVec<(I, usize)>>,
    key: K,
    extra: Seq<(I, usize)>,
) -> bool {
    forall|ik: I, pos: usize, k: K| #[trigger]
        holds(fwd, ik, pos, k) ==> (k != key && records(bwd, k, ik, pos)) || (k == key
            && extra.contains((ik, pos)))
}

/// Every forward list is taken somewhere, or its key is among `changed`.
pub open spec fn occupied_but<K, I, X>(fwd: Map<I, StableVec<(K, X)>>, changed: Seq<I>) -> bool {
    forall|ik: I| #[trigger] fwd.contains_key(ik) ==> occupied(fwd, ik) || changed.contains(ik)
}

/// Each slot of `extra` holds `key`, or is vacant when `vacant_ok`.
pub open spec fn holds_all<K, I, X>(fwd: Map<I, StableVec<(K, X)>>, key: K, extra: Seq<(I, usize)>, vacant_ok: bool) -> bool {
    forall|p: (I, usize)| #[trigger]
        extra.contains(p) ==> holds(fwd, p.0, p.1, key) || (vacant_ok && fwd.contains_key(p.0) && p.1
            < fwd[p.0]@.len() && fwd[p.0]@[p.1 as int] is None)
}

proof fn lemma_push_full_pairs<I>(slots: Seq<Option<(I, usize)>>, item: (I, usize))
    requires
        forall|j: int| 0 <= j < slots.len() ==> #[trigger] slots[j] is Some,
    ensures
        first_vacant(slots) == slots.len(),
        pushed(slots, item) == slots.push(Some(item)),
{
    crate::stable_vec::lemma_push_full(slots, item);
}

/// Every taken slot of `f0` is still there in `f1`, unchanged.
pub open spec fn keeps_taken<K, I, X>(f0: Map<I, StableVec<(K, X)>>, f1: Map<I, StableVec<(K, X)>>) -> bool {
    forall|ik: I, pos: usize, k: K| #[trigger]
        holds(f0, ik, pos, k) ==> f1.contains_key(ik) && pos < f1[ik]@.len() && f1[ik]@[pos as int]
            == f0[ik]@[pos as int]
}

/// Every slot of `f0` that holds another key than `key` is still there in `f1`, unchanged.
pub open spec fn keeps_others<K, I, X>(
    f0: Map<I, StableVec<(K, X)>>,
    f1: Map<I, StableVec<(K, X)>>,
    key: K,
) -> bool {
    forall|ik: I, pos: usize, k: K| #[trigger]
        holds(f0, ik, pos, k) && k != key ==> f1.contains_key(ik) && pos < f1[ik]@.len()
            && f1[ik]@[pos as int] == f0[ik]@[pos as int]
}

/// The forward lists at keys outside `changed` are as they were.
pub open spec fn untouched_but<K, I, X>(
    f0: Map<I, StableVec<(K, X)>>,
    f1: Map<I, StableVec<(K, X)>>,
    changed: Seq<I>,
) -> bool {
    forall|ik: I|
        !changed.contains(ik) ==> (#[trigger] f1.contains_key(ik) == f0.contains_key(ik) && (
        f0.contains_key(ik) ==> f1[ik] == f0[ik]))
}

/// The slots that the backward list of `key` records, in order.
pub open spec fn recorded<I>(bwd_list: Option<Seq<Option<(I, usize)>>>) -> Seq<(I, usize)> {
    match bwd_list {
        Some(slots) => live(slots),
        None => Seq::empty(),
    }
}

/// The backward list of `key`, if there is one.
pub open spec fn old_list_of<K, I>(bwd: Map<K, StableVec<(I, usize)>>, key: K) -> Option<
    Seq<Option<(I, usize)>>,
> {
    if bwd.contains_key(key) {
        Some(bwd[key]@)
    } else {
        None
    }
}

/// Some pair of `pairs` has `ik` as its first part.
pub open spec fn keyed_in<I, Y>(pairs: Seq<(I, Y)>, ik: I) -> bool {
    exists|j: int| 0 <= j < pairs.len() && pairs[j].0 == ik
}

/// `e` is the event that a materialization emits at derived key `ik` once
/// its forward map is `fwd`: a removal where no list is left at `ik`, else
/// the values derived there, in slot order.
pub open spec fn transform_event<K, I, X>(
    fwd: Map<I, StableVec<(K, X)>>,
    ik: I,
    e: Event<I, Vec<&X>>,
) -> bool {
    if fwd.contains_key(ik) {
        e matches Event::Insert { key, value } && key == ik && value@.map_values(|x: &X| *x)
            == live(fwd[ik]@).map_values(|p: (K, X)| p.1)
    } else {
        e == Event::<I, Vec<&X>>::Remove { key: ik }
    }
}

/// `e` is the event that an index emits at `ik`: a removal where no list
/// stands there (`listed` false), else the values resolved for it.
pub open spec fn index_event<I, V>(listed: bool, ik: I, values: Seq<V>, e: Event<I, Vec<&V>>) -> bool {
    if listed {
        e matches Event::Insert { key, value } && key == ik && value@.map_values(|v: &V| *v) == values
    } else {
        e == Event::<I, Vec<&V>>::Remove { key: ik }
    }
}

/// The slot contents of each forward list.
pub open spec fn fwd_view<K, I, X>(fwd: Map<I, StableVec<(K, X)>>) -> Map<I, Seq<Option<(K, X)>>> {
    fwd.map_values(|list: StableVec<(K, X)>| list@)
}

/// The slot contents of each backward list.
pub open spec fn bwd_view<K, I>(bwd: Map<K, StableVec<(I, usize)>>) -> Map<K, Seq<Option<(I, usize)>>> {
    bwd.map_values(|list: StableVec<(I, usize)>| list@)
}

/// The forward lists with every slot that holds `key` vacated.
pub open spec fn stripped<K, I, X>(fv: Map<I, Seq<Option<(K, X)>>>, key: K) -> Map<
    I,
    Seq<Option<(K, X)>>,
> {
    fv.map_values(
        |slots: Seq<Option<(K, X)>>|
            slots.map_values(
                |o: Option<(K, X)>|
                    if o is Some && o->Some_0.0 == key {
                        None
                    } else {
                        o
                    },
            ),
    )
}

/// The slots of the forward list at `ik`, none where there is no list.
pub open spec fn slots_at<K, I, X>(fv: Map<I, Seq<Option<(K, X)>>>, ik: I) -> Seq<Option<(K, X)>> {
    if fv.contains_key(ik) {
        fv[ik]
    } else {
        Seq::empty()
    }
}

/// The forward lists after `key` is pushed, with the value beside it, onto
/// the list of each derived key of `es` in turn.
pub open spec fn entered_view<K, I, X>(fv: Map<I, Seq<Option<(K, X)>>>, key: K, es: Seq<(I, X)>) -> Map<
    I,
    Seq<Option<(K, X)>>,
>
    decreases es.len(),
{
    if es.len() == 0 {
        fv
    } else {
        let prev = entered_view(fv, key, es.drop_last());
        let e = es.last();
        prev.insert(e.0, pushed(slots_at(prev, e.0), (key, e.1)))
    }
}

/// The backward list that records where those pushes went.
pub open spec fn entered_places<K, I, X>(fv: Map<I, Seq<Option<(K, X)>>>, key: K, es: Seq<(I, X)>) -> Seq<
    Option<(I, usize)>,
>
    decreases es.len(),
{
    if es.len() == 0 {
        Seq::empty()
    } else {
        let prev = entered_view(fv, key, es.drop_last());
        let e = es.last();
        entered_places(fv, key, es.drop_last()).push(Some((e.0, first_vacant(slots_at(prev, e.0)) as usize)))
    }
}

/// The forward lists without those that have no taken slot.
pub open spec fn without_empty<K, I, X>(fv: Map<I, Seq<Option<(K, X)>>>) -> Map<I, Seq<Option<(K, X)>>> {
    Map::new(|ik: I| fv.contains_key(ik) && live(fv[ik]).len() > 0, |ik: I| fv[ik])
}

/// The forward and backward lists after source key `key` gets the derived entries `es`.
pub open spec fn updated_views<K, I, X>(
    views: (Map<I, Seq<Option<(K, X)>>>, Map<K, Seq<Option<(I, usize)>>>),
    key: K,
    es: Option<Seq<(I, X)>>,
) -> (Map<I, Seq<Option<(K, X)>>>, Map<K, Seq<Option<(I, usize)>>>) {
    let cleared = stripped(views.0, key);
    match es {
        Some(es) => (
            without_empty(entered_view(cleared, key, es)),
            views.1.insert(key, entered_places(cleared, key, es)),
        ),
        None => (without_empty(cleared), views.1.remove(key)),
    }
}

/// The forward and backward lists that a rebuild from `entries` makes.
pub open spec fn rebuilt_views<K, I, X>(entries: Seq<(K, Vec<(I, X)>)>) -> (
    Map<I, Seq<Option<(K, X)>>>,
    Map<K, Seq<Option<(I, usize)>>>,
)
    decreases entries.len(),
{
    if entries.len() == 0 {
        (Map::empty(), Map::empty())
    } else {
        updated_views(
            rebuilt_views(entries.drop_last()),
            entries.last().0,
            Some(entries.last().1@),
        )
    }
}

/// Slot `pos` of the list at `ik` in `cur`, on the way from `f0` to
/// `f0` with `key` vacated: a slot that held `key` is vacant or still to be
/// vacated (among `pending`); any other slot is as it was.
pub open spec fn clearing<K, I, X>(
    f0: Map<I, StableVec<(K, X)>>,
    cur: Map<I, StableVec<(K, X)>>,
    pending: Seq<(I, usize)>,
    key: K,
    ik: I,
    pos: usize,
) -> bool {
    let o = f0[ik]@[pos as int];
    let c = cur[ik]@[pos as int];
    if o is Some && o->Some_0.0 == key {
        (c == o && pending.contains((ik, pos))) || c is None
    } else {
        c == o
    }
}

/// `ik` is a derived key that source key `key` had in `before`, or that it
/// gets from `now`.
pub open spec fn touched<K, I, X>(
    before: Map<K, Seq<(I, X)>>,
    key: K,
    now: Option<Seq<(I, X)>>,
    ik: I,
) -> bool {
    ||| (before.contains_key(key) && keyed_in(before[key], ik))
    ||| match now {
        Some(es) => keyed_in(es, ik),
        None => false,
    }
}

/// The slots `places` hold `key` with the values of `entries`, one for one.
pub open spec fn placed<K, I, X>(
    fwd: Map<I, StableVec<(K, X)>>,
    key: K,
    places: Seq<(I, usize)>,
    entries: Seq<(I, X)>,
) -> bool {
    &&& places.len() == entries.len()
    &&& forall|j: int|
        0 <= j < entries.len() ==> #[trigger] places[j].0 == entries[j].0 && holds(
            fwd,
            entries[j].0,
            places[j].1,
            key,
        ) && fwd[entries[j].0]@[places[j].1 as int]->Some_0.1 == entries[j].1
}

/// For each source key, the derived keys with the values derived beside
/// them, read through the positions that the backward map records.
pub open spec fn transformed_of<K, I, X>(
    fwd: Map<I, StableVec<(K, X)>>,
    bwd: Map<K, StableVec<(I, usize)>>,
) -> Map<K, Seq<(I, X)>> {
    Map::new(
        |k: K| bwd.contains_key(k),
        |k: K|
            live(bwd[k]@).map_values(|p: (I, usize)| (p.0, fwd[p.0]@[p.1 as int]->Some_0.1)),
    )
}

/// What is derived for each source key, after taking `entries` in order.
pub open spec fn transformed_from<K, I, X>(entries: Seq<(K, Vec<(I, X)>)>) -> Map<K, Seq<(I, X)>>
    decreases entries.len(),
{
    if entries.len() == 0 {
        Map::empty()
    } else {
        transformed_from(entries.drop_last()).insert(entries.last().0, entries.last().1@)
    }
}

/// An index kept in memory: for each indexed key, the source keys that the
/// indexer gave it (`fwd`), and for each source key, where it stands in
/// those lists (`bwd`). The positions stay valid while other source keys
/// come and go, so a change to one source key touches only its own slots.
#[verifier::reject_recursive_types(K)]
#[verifier::reject_recursive_types(I)]
#[verifier::reject_recursive_types(X)]
pub struct MaterialTransform<K, I, X> {
    fwd: Loaded<I, StableVec<(K, X)>>,
    bwd: Loaded<K, StableVec<(I, usize)>>,
}

impl<K: Ord + Clone, I: Ord + Clone, X: Clone> MaterialTransform<K, I, X> {
    pub closed spec fn fwd_of(&self) -> Map<I, StableVec<(K, X)>> {
        self.fwd@
    }

    pub closed spec fn bwd_of(&self) -> Map<K, StableVec<(I, usize)>> {
        self.bwd@
    }

    /// What is derived for each source key.
    pub open spec fn transformed(&self) -> Map<K, Seq<(I, X)>> {
        transformed_of(self.fwd_of(), self.bwd_of())
    }

    /// The keys order and clone lawfully, and the two maps agree.
    pub open spec fn wf(&self) -> bool {
        &&& obeys_cmp::<K>()
        &&& obeys_cmp::<I>()
        &&& clones_equal::<K>()
        &&& clones_equal::<I>()
        &&& clones_equal::<X>()
        &&& consistent(self.fwd_of(), self.bwd_of())
    }

    /// An empty index.
    pub fn new() -> (r: Self)
        ensures
            r.fwd_of() == Map::<I, StableVec<(K, X)>>::empty(),
            r.bwd_of() == Map::<K, StableVec<(I, usize)>>::empty(),
            obeys_cmp::<K>() && obeys_cmp::<I>() && clones_equal::<K>() && clones_equal::<I>()
                && clones_equal::<X>()
                ==> r.wf(),
    {
        MaterialTransform { fwd: Loaded::new(), bwd: Loaded::new() }
    }

    /// The entries listed at `ik`, in slot order: each a source key with
    /// the value derived for it.
    pub fn get(&self, ik: &I) -> (r: Vec<&(K, X)>)
        requires
            self.wf(),
        ensures
            self.fwd_of().contains_key(*ik) ==> r@.map_values(|e: &(K, X)| *e) == live(
                self.fwd_of()[*ik]@,
            ),
            !self.fwd_of().contains_key(*ik) ==> r@.len() == 0,
    {
        match self.fwd.get(ik) {
            Some(list) => list.to_vec(),
            None => Vec::new(),
        }
    }

    /// Removes the backward list of `key` and vacates the slots it records;
    /// returns the indexed keys whose forward lists were touched.
    fn vacate(&mut self, key: &K) -> (changed: Vec<I>)
        requires
            old(self).wf(),
        ensures
            obeys_cmp::<K>() && obeys_cmp::<I>() && clones_equal::<K>() && clones_equal::<I>()
                && clones_equal::<X>(),
            final(self).bwd_of() == old(self).bwd_of().remove(*key),
            backed(final(self).fwd_of(), final(self).bwd_of()),
            covered_but(final(self).fwd_of(), final(self).bwd_of(), *key, Seq::empty()),
            occupied_but(final(self).fwd_of(), changed@),
            keeps_others(old(self).fwd_of(), final(self).fwd_of(), *key),
            untouched_but(old(self).fwd_of(), final(self).fwd_of(), changed@),
            forall|t: int|
                0 <= t < changed@.len() ==> keyed_in(
                    recorded(old_list_of(old(self).bwd_of(), *key)),
                    #[trigger] changed@[t],
                ),
            forall|p: (I, usize)|
                #[trigger] recorded(old_list_of(old(self).bwd_of(), *key)).contains(p)
                    ==> changed@.contains(p.0),
            fwd_view(final(self).fwd_of()) == stripped(fwd_view(old(self).fwd_of()), *key),
    {
        let ghost f0 = self.fwd@;
        let ghost b0 = self.bwd@;
        let ghost rec0 = recorded(old_list_of(b0, *key));
        let old_list = self.bwd.remove(key);
        let mut pending: Vec<(I, usize)> = match old_list {
            Some(list) => list.into_vec(),
            None => Vec::new(),
        };
        let mut changed: Vec<I> = Vec::new();
        proof {
            let b = self.bwd@;
            assert forall|k: K, ik: I, pos: usize| #[trigger] records(b, k, ik, pos) implies holds(
                self.fwd@,
                ik,
                pos,
                k,
            ) by {
                assert(records(b0, k, ik, pos));
            }
            assert forall|p: (I, usize)| #[trigger] pending@.contains(p) implies holds(
                self.fwd@,
                p.0,
                p.1,
                *key,
            ) by {
                lemma_live_contains(b0[*key]@, p);
                assert(records(b0, *key, p.0, p.1));
            }
            assert forall|ik: I, pos: usize, k: K| #[trigger] holds(self.fwd@, ik, pos, k) implies (
            k != *key && records(b, k, ik, pos)) || (k == *key && pending@.contains((ik, pos))) by {
                assert(records(b0, k, ik, pos));
                if k == *key {
                    lemma_live_contains(b0[*key]@, (ik, pos));
                }
            }
            assert forall|ik: I, pos: usize| f0.contains_key(ik) && pos < f0[ik]@.len() implies #[trigger] clearing(
                f0,
                self.fwd@,
                pending@,
                *key,
                ik,
                pos,
            ) by {
                if f0[ik]@[pos as int] is Some && f0[ik]@[pos as int]->Some_0.0 == *key {
                    assert(holds(f0, ik, pos, *key));
                }
            }
        }
        while pending.len() > 0
            invariant
                obeys_cmp::<K>() && obeys_cmp::<I>() && clones_equal::<K>() && clones_equal::<I>()
                && clones_equal::<X>(),
                self.bwd@ == b0.remove(*key),
                backed(self.fwd@, self.bwd@),
                holds_all(self.fwd@, *key, pending@, true),
                covered_but(self.fwd@, self.bwd@, *key, pending@),
                occupied_but(self.fwd@, changed@),
                keeps_others(f0, self.fwd@, *key),
                untouched_but(f0, self.fwd@, changed@),
                rec0 == recorded(old_list_of(b0, *key)),
                forall|p: (I, usize)| #[trigger] pending@.contains(p) ==> rec0.contains(p),
                forall|t: int| 0 <= t < changed@.len() ==> keyed_in(rec0, #[trigger] changed@[t]),
                forall|p: (I, usize)|
                    #[trigger] rec0.contains(p) ==> pending@.contains(p) || changed@.contains(p.0),
                self.fwd@.dom() == f0.dom(),
                forall|ik: I| #[trigger] f0.contains_key(ik) ==> self.fwd@[ik]@.len() == f0[ik]@.len(),
                forall|ik: I, pos: usize|
                    f0.contains_key(ik) && pos < f0[ik]@.len() ==> #[trigger] clearing(
                        f0,
                        self.fwd@,
                        pending@,
                        *key,
                        ik,
                        pos,
                    ),
            decreases pending@.len(),
        {
            let ghost before = pending@;
            let ghost f = self.fwd@;
            let ghost ch_before = changed@;
            let (ik, pos) = pending.pop().unwrap();
            assert(before.last() == (ik, pos));
            assert(before.contains((ik, pos)));
            assert(pending@ == before.drop_last());
            let taken = self.fwd.remove(&ik);
            let ghost was_taken = taken is Some;
            match taken {
                Some(mut list) => {
                    let ghost l0 = list@;
                    list.remove(pos);
                    let again = ik.clone();
                    assert(strictly_cloned(ik, again));
                    assert(again == ik);
                    self.fwd.insert(again, list);
                    let ghost ch0 = changed@;
                    changed.push(ik);
                    proof {
                        let f2 = self.fwd@;
                        assert(f2 =~= f.insert(ik, list));
                        assert forall|k: K, ik2: I, pos2: usize| #[trigger] records(
                            self.bwd@,
                            k,
                            ik2,
                            pos2,
                        ) implies holds(f2, ik2, pos2, k) by {
                            assert(holds(f, ik2, pos2, k));
                        }
                        assert forall|p: (I, usize)| #[trigger] pending@.contains(p) implies holds(
                            f2,
                            p.0,
                            p.1,
                            *key,
                        ) || (f2.contains_key(p.0) && p.1 < f2[p.0]@.len() && f2[p.0]@[p.1 as int] is None) by {
                            assert(before.contains(p));
                        }
                        assert forall|ik2: I, pos2: usize, k: K| #[trigger] holds(
                            f2,
                            ik2,
                            pos2,
                            k,
                        ) implies (k != *key && records(self.bwd@, k, ik2, pos2)) || (k == *key
                            && pending@.contains((ik2, pos2))) by {
                            assert(holds(f, ik2, pos2, k));
                            if k == *key {
                                assert(before.contains((ik2, pos2)));
                                let t = choose|t: int| 0 <= t < before.len() && before[t] == (ik2, pos2);
                                assert(t != before.len() - 1);
                                assert(pending@[t] == (ik2, pos2));
                            }
                        }
                        assert forall|ik3: I| !changed@.contains(ik3) implies (#[trigger] f2.contains_key(ik3)
                            == f0.contains_key(ik3) && (f0.contains_key(ik3) ==> f2[ik3] == f0[ik3])) by {
                            if ch0.contains(ik3) {
                                let t = choose|t: int| 0 <= t < ch0.len() && ch0[t] == ik3;
                                assert(changed@[t] == ik3);
                            }
                            if ik3 == ik {
                                assert(changed@.last() == ik);
                            }
                            assert(f.contains_key(ik3) == f0.contains_key(ik3));
                        }
                        assert forall|ik2: I, pos2: usize, k: K| #[trigger] holds(f0, ik2, pos2, k) && k
                            != *key implies f2.contains_key(ik2) && pos2 < f2[ik2]@.len()
                            && f2[ik2]@[pos2 as int] == f0[ik2]@[pos2 as int] by {
                            assert(holds(f, ik2, pos2, k));
                        }
                        assert forall|ik3: I| #[trigger] f2.contains_key(ik3) implies occupied(f2, ik3)
                            || changed@.contains(ik3) by {
                            if ik3 == ik {
                                assert(changed@.last() == ik);
                            } else {
                                assert(f.contains_key(ik3));
                                if occupied(f, ik3) {
                                    let (q, kq) = choose|q: usize, kq: K| holds(f, ik3, q, kq);
                                    assert(holds(f2, ik3, q, kq));
                                } else {
                                    assert(ch0.contains(ik3));
                                    let t = choose|t: int| 0 <= t < ch0.len() && ch0[t] == ik3;
                                    assert(changed@[t] == ik3);
                                }
                            }
                        }
                    }
                },
                None => {
                    proof {
                        assert(self.fwd@ == f);
                        assert forall|p: (I, usize)| #[trigger] pending@.contains(p) implies holds(
                            f,
                            p.0,
                            p.1,
                            *key,
                        ) || (f.contains_key(p.0) && p.1 < f[p.0]@.len() && f[p.0]@[p.1 as int] is None) by {
                            assert(before.contains(p));
                        }
                        assert forall|ik2: I, pos2: usize, k: K| #[trigger] holds(f, ik2, pos2, k) implies (k
                            != *key && records(self.bwd@, k, ik2, pos2)) || (k == *key
                            && pending@.contains((ik2, pos2))) by {
                            if k == *key {
                                let t = choose|t: int| 0 <= t < before.len() && before[t] == (ik2, pos2);
                                assert(t != before.len() - 1);
                                assert(pending@[t] == (ik2, pos2));
                            }
                        }
                    }
                },
            }
            proof {
                if !was_taken {
                    assert(f.contains_key(ik));
                }
                assert(self.fwd@.dom() =~= f0.dom());
                assert forall|ik2: I| #[trigger] f0.contains_key(ik2) implies self.fwd@[ik2]@.len() == f0[ik2]@.len() by {
                    if ik2 == ik {
                        assert(f[ik]@.len() == f0[ik]@.len());
                    }
                }
                assert forall|ik2: I, pos2: usize| f0.contains_key(ik2) && pos2 < f0[ik2]@.len() implies #[trigger] clearing(
                    f0,
                    self.fwd@,
                    pending@,
                    *key,
                    ik2,
                    pos2,
                ) by {
                    assert(clearing(f0, f, before, *key, ik2, pos2));
                    if ik2 == ik && pos2 == pos {
                        assert(f.contains_key(ik) && pos < f[ik]@.len());
                    } else if f0[ik2]@[pos2 as int] is Some && f0[ik2]@[pos2 as int]->Some_0.0 == *key
                        && self.fwd@[ik2]@[pos2 as int] is Some {
                        let t = choose|t: int| 0 <= t < before.len() && before[t] == (ik2, pos2);
                        assert(t != before.len() - 1);
                        assert(pending@[t] == (ik2, pos2));
                    }
                }
                assert(changed@ == ch_before.push(ik));
                assert(rec0.contains((ik, pos)));
                assert forall|p: (I, usize)| #[trigger] pending@.contains(p) implies rec0.contains(p) by {
                    let t = choose|t: int| 0 <= t < pending@.len() && pending@[t] == p;
                    assert(before[t] == p);
                    assert(before.contains(p));
                }
                assert forall|t: int| 0 <= t < changed@.len() implies keyed_in(rec0, #[trigger] changed@[t]) by {
                    if t < ch_before.len() {
                        assert(changed@[t] == ch_before[t]);
                        assert(keyed_in(rec0, ch_before[t]));
                    } else {
                        let j = choose|j: int| 0 <= j < rec0.len() && rec0[j] == (ik, pos);
                        assert(rec0[j].0 == changed@[t]);
                    }
                }
                assert forall|p: (I, usize)| #[trigger] rec0.contains(p) implies pending@.contains(p)
                    || changed@.contains(p.0) by {
                    if before.contains(p) && p != (ik, pos) {
                        let t = choose|t: int| 0 <= t < before.len() && before[t] == p;
                        assert(t != before.len() - 1);
                        assert(pending@[t] == p);
                    } else if p == (ik, pos) {
                        assert(changed@[changed@.len() - 1] == ik);
                    } else {
                        let t = choose|t: int| 0 <= t < ch_before.len() && ch_before[t] == p.0;
                        assert(changed@[t] == p.0);
                    }
                }
            }
        }
        proof {
            assert forall|ik: I, pos: usize, k: K| #[trigger] holds(self.fwd@, ik, pos, k) implies (k
                != *key && records(self.bwd@, k, ik, pos)) || (k == *key && Seq::<(I, usize)>::empty().contains((ik, pos))) by {
                if k == *key {
                    assert(pending@.contains((ik, pos)));
                }
            }
        }
        proof {
            let sv = stripped(fwd_view(f0), *key);
            let cv = fwd_view(self.fwd@);
            assert(cv.dom() =~= sv.dom());
            assert forall|ik: I| #[trigger] cv.contains_key(ik) implies cv[ik] == sv[ik] by {
                assert(f0.contains_key(ik));
                f0[ik].lemma_slots_fit();
                assert forall|j: int| 0 <= j < cv[ik].len() implies cv[ik][j] == sv[ik][j] by {
                    assert(clearing(f0, self.fwd@, pending@, *key, ik, j as usize));
                }
                assert(cv[ik] =~= sv[ik]);
            }
            assert(cv =~= sv);
        }
        changed
    }

    /// Puts `key` into the forward list of each indexed key of `entries`,
    /// with the value given beside it, and returns the backward list that
    /// records where each went, in the order of `entries`.
    fn enter(&mut self, key: &K, entries: &Vec<(I, X)>, changed: &mut Vec<I>) -> (list: StableVec<
        (I, usize),
    >)
        requires
            obeys_cmp::<K>() && obeys_cmp::<I>() && clones_equal::<K>() && clones_equal::<I>()
                && clones_equal::<X>(),
            !old(self).bwd_of().contains_key(*key),
            backed(old(self).fwd_of(), old(self).bwd_of()),
            covered_but(old(self).fwd_of(), old(self).bwd_of(), *key, Seq::empty()),
            occupied_but(old(self).fwd_of(), old(changed)@),
        ensures
            final(self).bwd_of() == old(self).bwd_of(),
            backed(final(self).fwd_of(), final(self).bwd_of()),
            holds_all(final(self).fwd_of(), *key, live(list@), false),
            covered_but(final(self).fwd_of(), final(self).bwd_of(), *key, live(list@)),
            occupied_but(final(self).fwd_of(), final(changed)@),
            keeps_taken(old(self).fwd_of(), final(self).fwd_of()),
            placed(final(self).fwd_of(), *key, live(list@), entries@),
            old(changed)@.is_prefix_of(final(changed)@),
            untouched_but(old(self).fwd_of(), final(self).fwd_of(), final(changed)@),
            forall|t: int|
                old(changed)@.len() <= t < final(changed)@.len() ==> keyed_in(
                    entries@,
                    #[trigger] final(changed)@[t],
                ),
            forall|j: int| 0 <= j < entries@.len() ==> final(changed)@.contains(#[trigger] entries@[j].0),
            fwd_view(final(self).fwd_of()) == entered_view(fwd_view(old(self).fwd_of()), *key, entries@),
            list@ == entered_places(fwd_view(old(self).fwd_of()), *key, entries@),
    {
        let mut list: StableVec<(I, usize)> = StableVec::new();
        let mut i: usize = 0;
        proof {
            assert(live(list@) =~= Seq::<(I, usize)>::empty());
            assert(entries@.take(0) =~= Seq::<(I, X)>::empty());
        }
        while i < entries.len()
            invariant
                obeys_cmp::<K>() && obeys_cmp::<I>() && clones_equal::<K>() && clones_equal::<I>()
                    && clones_equal::<X>(),
                0 <= i <= entries@.len(),
                self.bwd@ == old(self).bwd@,
                !self.bwd@.contains_key(*key),
                backed(self.fwd@, self.bwd@),
                forall|j: int| 0 <= j < list@.len() ==> #[trigger] list@[j] is Some,
                holds_all(self.fwd@, *key, live(list@), false),
                covered_but(self.fwd@, self.bwd@, *key, live(list@)),
                occupied_but(self.fwd@, changed@),
                keeps_taken(old(self).fwd@, self.fwd@),
                placed(self.fwd@, *key, live(list@), entries@.take(i as int)),
                old(changed)@.is_prefix_of(changed@),
                untouched_but(old(self).fwd@, self.fwd@, changed@),
                forall|t: int|
                    old(changed)@.len() <= t < changed@.len() ==> keyed_in(entries@, #[trigger] changed@[t]),
                forall|j: int| 0 <= j < i ==> changed@.contains(#[trigger] entries@[j].0),
                fwd_view(self.fwd@) == entered_view(fwd_view(old(self).fwd@), *key, entries@.take(i as int)),
                list@ == entered_places(fwd_view(old(self).fwd@), *key, entries@.take(i as int)),
            decreases entries@.len() - i,
        {
            let ghost f = self.fwd@;
            let ghost l0 = list@;
            let ik = entries[i].0.clone();
            let x = entries[i].1.clone();
            assert(strictly_cloned(entries@[i as int].0, ik));
            assert(strictly_cloned(entries@[i as int].1, x));
            let taken = self.fwd.remove(&ik);
            let mut slots = match taken {
                Some(s) => s,
                None => StableVec::new(),
            };
            let ghost s0 = slots@;
            proof {
                lemma_first_vacant_bound(s0);
            }
            let k2 = key.clone();
            assert(strictly_cloned(*key, k2));
            let pos = slots.push((k2, x));
            let again = ik.clone();
            assert(strictly_cloned(ik, again));
            self.fwd.insert(again, slots);
            let marked = ik.clone();
            assert(strictly_cloned(ik, marked));
            let ghost ch0 = changed@;
            changed.push(marked);
            proof {
                lemma_push_full_pairs(l0, (ik, pos));
            }
            list.push((ik, pos));
            proof {
                let f2 = self.fwd@;
                let e = (*key, entries@[i as int].1);
                assert(f2 =~= f.insert(ik, slots));
                assert(f2[ik]@ == pushed(s0, e));
                assert(f.contains_key(ik) ==> f[ik]@ == s0);
                assert(!holds(f, ik, pos, *key));
                lemma_live_append(l0, seq![Some((ik, pos))]);
                lemma_live_single(Some((ik, pos)));
                assert(list@ =~= l0 + seq![Some((ik, pos))]);
                assert(live(l0) + seq![(ik, pos)] =~= live(l0).push((ik, pos)));
                assert(live(list@) == live(l0).push((ik, pos)));
                // slots taken before keep their contents
                assert forall|ik2: I, pos2: usize, k: K| #[trigger] holds(f, ik2, pos2, k) implies f2.contains_key(
                    ik2,
                ) && pos2 < f2[ik2]@.len() && f2[ik2]@[pos2 as int] == f[ik2]@[pos2 as int] by {}
                assert forall|ik2: I, pos2: usize, k: K| #[trigger] holds(old(self).fwd@, ik2, pos2, k)
                    implies f2.contains_key(ik2) && pos2 < f2[ik2]@.len() && f2[ik2]@[pos2 as int]
                    == old(self).fwd@[ik2]@[pos2 as int] by {
                    assert(holds(f, ik2, pos2, k));
                }
                assert forall|k: K, ik2: I, pos2: usize| #[trigger] records(self.bwd@, k, ik2, pos2)
                    implies holds(f2, ik2, pos2, k) by {
                    assert(holds(f, ik2, pos2, k));
                }
                assert forall|p: (I, usize)| #[trigger] live(list@).contains(p) implies holds(
                    f2,
                    p.0,
                    p.1,
                    *key,
                ) by {
                    if p != (ik, pos) {
                        let t = choose|t: int| 0 <= t < live(list@).len() && live(list@)[t] == p;
                        assert(live(l0)[t] == p);
                        assert(live(l0).contains(p));
                        assert(holds(f, p.0, p.1, *key));
                    }
                }
                assert forall|ik2: I, pos2: usize, k: K| #[trigger] holds(f2, ik2, pos2, k) implies (k
                    != *key && records(self.bwd@, k, ik2, pos2)) || (k == *key && live(list@).contains(
                    (ik2, pos2),
                )) by {
                    if ik2 == ik && pos2 == pos {
                        assert(live(list@)[live(l0).len() as int] == (ik, pos));
                    } else {
                        assert(holds(f, ik2, pos2, k));
                        if k == *key {
                            let t = choose|t: int| 0 <= t < live(l0).len() && live(l0)[t] == (ik2, pos2);
                            assert(live(list@)[t] == (ik2, pos2));
                        }
                    }
                }
                assert forall|ik3: I| #[trigger] f2.contains_key(ik3) implies occupied(f2, ik3)
                    || changed@.contains(ik3) by {
                    if ik3 == ik {
                        assert(changed@.last() == ik);
                    } else {
                        assert(f.contains_key(ik3));
                        if occupied(f, ik3) {
                            let (q, kq) = choose|q: usize, kq: K| holds(f, ik3, q, kq);
                            assert(holds(f2, ik3, q, kq));
                        } else {
                            assert(ch0.contains(ik3));
                            let t = choose|t: int| 0 <= t < ch0.len() && ch0[t] == ik3;
                            assert(changed@[t] == ik3);
                        }
                    }
                }
                assert(old(changed)@.is_prefix_of(changed@)) by {
                    assert forall|t: int| 0 <= t < old(changed)@.len() implies old(changed)@[t]
                        == changed@[t] by {
                        assert(ch0[t] == changed@[t]);
                    }
                }
                assert forall|ik3: I| !changed@.contains(ik3) implies (#[trigger] f2.contains_key(ik3)
                    == old(self).fwd@.contains_key(ik3) && (old(self).fwd@.contains_key(ik3) ==> f2[ik3]
                    == old(self).fwd@[ik3])) by {
                    if ch0.contains(ik3) {
                        let t = choose|t: int| 0 <= t < ch0.len() && ch0[t] == ik3;
                        assert(changed@[t] == ik3);
                    }
                    if ik3 == ik {
                        assert(changed@.last() == ik);
                    }
                }
                assert(changed@ == ch0.push(ik));
                assert forall|t: int| old(changed)@.len() <= t < changed@.len() implies keyed_in(
                    entries@,
                    #[trigger] changed@[t],
                ) by {
                    if t < ch0.len() {
                        assert(changed@[t] == ch0[t]);
                    } else {
                        assert(entries@[i as int].0 == changed@[t]);
                    }
                }
                assert forall|j: int| 0 <= j < i + 1 implies changed@.contains(#[trigger] entries@[j].0) by {
                    if j < i {
                        let t = choose|t: int| 0 <= t < ch0.len() && ch0[t] == entries@[j].0;
                        assert(changed@[t] == entries@[j].0);
                    } else {
                        assert(changed@[ch0.len() as int] == entries@[j].0);
                    }
                }
                let fv0 = fwd_view(old(self).fwd@);
                let before_take = entries@.take(i as int);
                let after_take = entries@.take(i as int + 1);
                assert(after_take.drop_last() =~= before_take);
                assert(after_take.last() == entries@[i as int]);
                assert(slots_at(fwd_view(f), ik) == s0);
                assert(fwd_view(f2) =~= fwd_view(f).insert(ik, pushed(s0, e)));
                assert(list@ == l0.push(Some((ik, pos))));
                let done = entries@.take(i as int + 1);
                assert forall|j: int| 0 <= j < done.len() implies #[trigger] live(list@)[j].0 == done[j].0
                    && holds(f2, done[j].0, live(list@)[j].1, *key) && f2[done[j].0]@[live(
                    list@,
                )[j].1 as int]->Some_0.1 == done[j].1 by {
                    if j < i {
                        assert(live(list@)[j] == live(l0)[j]);
                        assert(done[j] == entries@.take(i as int)[j]);
                        assert(live(l0)[j].0 == entries@.take(i as int)[j].0);
                        assert(holds(f, done[j].0, live(l0)[j].1, *key));
                    } else {
                        assert(live(list@)[j] == (ik, pos));
                        assert(f2[ik]@[pos as int] == Some(e));
                    }
                }
            }
            i = i + 1;
        }
        assert(entries@.take(i as int) =~= entries@);
        list
    }

    /// Drops the forward lists among `changed` that have no taken slot left.
    fn prune(&mut self, changed: &Vec<I>)
        requires
            obeys_cmp::<K>() && obeys_cmp::<I>(),
            backed(old(self).fwd_of(), old(self).bwd_of()),
            covered(old(self).fwd_of(), old(self).bwd_of()),
            occupied_but(old(self).fwd_of(), changed@),
        ensures
            final(self).bwd_of() == old(self).bwd_of(),
            consistent(final(self).fwd_of(), final(self).bwd_of()),
            keeps_taken(old(self).fwd_of(), final(self).fwd_of()),
            untouched_but(old(self).fwd_of(), final(self).fwd_of(), changed@),
            fwd_view(final(self).fwd_of()) == without_empty(fwd_view(old(self).fwd_of())),
    {
        let mut i: usize = 0;
        assert(changed@.subrange(0, changed@.len() as int) =~= changed@);
        while i < changed.len()
            invariant
                obeys_cmp::<K>() && obeys_cmp::<I>(),
                0 <= i <= changed@.len(),
                self.bwd@ == old(self).bwd@,
                backed(self.fwd@, self.bwd@),
                covered(self.fwd@, self.bwd@),
                occupied_but(self.fwd@, changed@.subrange(i as int, changed@.len() as int)),
                keeps_taken(old(self).fwd@, self.fwd@),
                untouched_but(old(self).fwd@, self.fwd@, changed@),
                forall|ik: I|
                    #[trigger] self.fwd@.contains_key(ik) <==> (old(self).fwd@.contains_key(ik) && !(
                    changed@.take(i as int).contains(ik) && live(old(self).fwd@[ik]@).len() == 0)),
                forall|ik: I| #[trigger] self.fwd@.contains_key(ik) ==> self.fwd@[ik] == old(self).fwd@[ik],
            decreases changed@.len() - i,
        {
            let ghost f = self.fwd@;
            let ik = &changed[i];
            let empty = match self.fwd.get(ik) {
                Some(list) => list.is_empty(),
                None => false,
            };
            if empty {
                self.fwd.remove(ik);
            }
            proof {
                assert(changed@[i as int] == *ik);
                assert(changed@.take(i as int + 1) =~= changed@.take(i as int).push(*ik));
                assert forall|ik3: I| #[trigger] self.fwd@.contains_key(ik3) <==> (old(self).fwd@.contains_key(
                    ik3,
                ) && !(changed@.take(i as int + 1).contains(ik3) && live(old(self).fwd@[ik3]@).len() == 0)) by {
                    if changed@.take(i as int).contains(ik3) {
                        let shorter = changed@.take(i as int);
                        let t = choose|t: int| 0 <= t < shorter.len() && shorter[t] == ik3;
                        assert(changed@.take(i as int + 1)[t] == ik3);
                    }
                    if changed@.take(i as int + 1).contains(ik3) && ik3 != *ik {
                        let longer = changed@.take(i as int + 1);
                        let t = choose|t: int| 0 <= t < longer.len() && longer[t] == ik3;
                        assert(changed@.take(i as int)[t] == ik3);
                    }
                    if ik3 == *ik {
                        assert(changed@.take(i as int + 1)[i as int] == ik3);
                    }
                }
                assert forall|ik3: I| !changed@.contains(ik3) implies (#[trigger] self.fwd@.contains_key(
                    ik3,
                ) == old(self).fwd@.contains_key(ik3) && (old(self).fwd@.contains_key(ik3)
                    ==> self.fwd@[ik3] == old(self).fwd@[ik3])) by {
                    assert(ik3 != *ik);
                    assert(f.contains_key(ik3) == old(self).fwd@.contains_key(ik3));
                }
                let rest = changed@.subrange(i as int + 1, changed@.len() as int);
                let f2 = self.fwd@;
                if empty {
                    assert forall|pos: usize, k: K| !holds(f, *ik, pos, k) by {
                        if holds(f, *ik, pos, k) {
                            lemma_live_contains(f[*ik]@, f[*ik]@[pos as int]->Some_0);
                        }
                    }
                    assert forall|k: K, ik2: I, pos2: usize| #[trigger] records(self.bwd@, k, ik2, pos2)
                        implies holds(f2, ik2, pos2, k) by {
                        assert(holds(f, ik2, pos2, k));
                    }
                    assert forall|ik2: I, pos2: usize, k: K| #[trigger] holds(f2, ik2, pos2, k)
                        implies records(self.bwd@, k, ik2, pos2) by {
                        assert(holds(f, ik2, pos2, k));
                    }
                    assert forall|ik2: I, pos2: usize, k: K| #[trigger] holds(old(self).fwd@, ik2, pos2, k)
                        implies f2.contains_key(ik2) && pos2 < f2[ik2]@.len() && f2[ik2]@[pos2 as int]
                        == old(self).fwd@[ik2]@[pos2 as int] by {
                        assert(holds(f, ik2, pos2, k));
                    }
                } else if f.contains_key(*ik) {
                    let x = live(f[*ik]@)[0];
                    assert(live(f[*ik]@).contains(x));
                    lemma_live_contains(f[*ik]@, x);
                    let j = choose|j: int| 0 <= j < f[*ik]@.len() && f[*ik]@[j] == Some(x);
                    f[*ik].lemma_slots_fit();
                    assert(holds(f, *ik, j as usize, x.0));
                    assert(occupied(f, *ik));
                }
                assert forall|ik3: I| #[trigger] f2.contains_key(ik3) implies occupied(f2, ik3)
                    || rest.contains(ik3) by {
                    assert(f.contains_key(ik3));
                    if !occupied(f, ik3) {
                        let old_rest = changed@.subrange(i as int, changed@.len() as int);
                        assert(old_rest.contains(ik3));
                        let t = choose|t: int| 0 <= t < old_rest.len() && old_rest[t] == ik3;
                        if t > 0 {
                            assert(rest[t - 1] == ik3);
                        } else {
                            assert(ik3 == *ik);
                        }
                    } else {
                        let (q, kq) = choose|q: usize, kq: K| holds(f, ik3, q, kq);
                        assert(holds(f2, ik3, q, kq));
                    }
                }
            }
            i = i + 1;
        }
        proof {
            assert forall|ik: I| #[trigger] self.fwd@.contains_key(ik) implies occupied(self.fwd@, ik) by {
                let rest = changed@.subrange(i as int, changed@.len() as int);
                assert(rest.len() == 0);
            }
            let fv = fwd_view(old(self).fwd@);
            assert(changed@.take(i as int) =~= changed@);
            assert forall|ik: I| #[trigger] fwd_view(self.fwd@).contains_key(ik) <==> without_empty(fv).contains_key(ik) by {
                if old(self).fwd@.contains_key(ik) && !changed@.contains(ik) {
                    assert(occupied(old(self).fwd@, ik));
                    let (q, kq) = choose|q: usize, kq: K| holds(old(self).fwd@, ik, q, kq);
                    lemma_live_contains(old(self).fwd@[ik]@, old(self).fwd@[ik]@[q as int]->Some_0);
                }
            }
            assert(fwd_view(self.fwd@) =~= without_empty(fv));
        }
    }

    /// Brings the materialization up to date with a change at source key
    /// `key`: `Some` with what was derived from its new value, or `None`
    /// where the key was removed. Returns the derived keys whose lists were
    /// touched.
    pub fn update(&mut self, key: K, entries: Option<Vec<(I, X)>>) -> (r: Vec<I>)
        requires
            old(self).wf(),
        ensures
            final(self).wf(),
            final(self).transformed() == match entries {
                Some(es) => old(self).transformed().insert(key, es@),
                None => old(self).transformed().remove(key),
            },
            untouched_but(old(self).fwd_of(), final(self).fwd_of(), r@),
            r@.no_duplicates(),
            forall|ik: I|
                #[trigger] r@.contains(ik) <==> touched(
                    old(self).transformed(),
                    key,
                    match entries {
                        Some(es) => Some(es@),
                        None => None,
                    },
                    ik,
                ),
            (fwd_view(final(self).fwd_of()), bwd_view(final(self).bwd_of())) == updated_views(
                (fwd_view(old(self).fwd_of()), bwd_view(old(self).bwd_of())),
                key,
                match entries {
                    Some(es) => Some(es@),
                    None => None,
                },
            ),
    {
        let ghost b0 = self.bwd@;
        let ghost f0 = self.fwd@;
        let ghost snapshot = entries;
        let mut changed = self.vacate(&key);
        let ghost ch_v = changed@;
        let ghost f1 = self.fwd@;
        let ghost b1 = self.bwd@;
        let ghost mut given: Seq<(I, X)> = Seq::empty();
        let ghost mut list_live: Seq<(I, usize)> = Seq::empty();
        let ghost mut list_slots: Seq<Option<(I, usize)>> = Seq::empty();
        match entries {
            Some(es) => {
                let list = self.enter(&key, &es, &mut changed);
                let ghost f = self.fwd@;
                proof {
                    given = es@;
                    list_live = live(list@);
                    list_slots = list@;
                }
                self.bwd.insert(key, list);
                proof {
                    let b2 = self.bwd@;
                    assert forall|k: K, ik: I, pos: usize| #[trigger] records(b2, k, ik, pos) implies holds(
                        f,
                        ik,
                        pos,
                        k,
                    ) by {
                        if k == key {
                            let j = choose|j: int| 0 <= j < b2[k]@.len() && b2[k]@[j] == Some((ik, pos));
                            lemma_live_contains(list@, (ik, pos));
                        } else {
                            assert(records(b1, k, ik, pos));
                        }
                    }
                    assert forall|ik: I, pos: usize, k: K| #[trigger] holds(f, ik, pos, k) implies records(
                        b2,
                        k,
                        ik,
                        pos,
                    ) by {
                        if k == key {
                            lemma_live_contains(list@, (ik, pos));
                        } else {
                            assert(records(b1, k, ik, pos));
                        }
                    }
                }
            },
            None => {
                proof {
                    assert forall|ik: I, pos: usize, k: K| #[trigger] holds(self.fwd@, ik, pos, k) implies records(
                        self.bwd@,
                        k,
                        ik,
                        pos,
                    ) by {}
                }
            },
        }
        let ghost f2 = self.fwd@;
        proof {
            let rec0 = recorded(old_list_of(b0, key));
            let t0 = transformed_of(f0, b0);
            let now = match snapshot {
                Some(es) => Some(es@),
                None => None::<Seq<(I, X)>>,
            };
            assert(ch_v.is_prefix_of(changed@));
            assert forall|ik: I| #[trigger] changed@.contains(ik) <==> touched(t0, key, now, ik) by {
                if changed@.contains(ik) {
                    let t = choose|t: int| 0 <= t < changed@.len() && changed@[t] == ik;
                    if t < ch_v.len() {
                        assert(ch_v[t] == ik);
                        assert(keyed_in(rec0, ch_v[t]));
                        let j = choose|j: int| 0 <= j < rec0.len() && rec0[j].0 == ik;
                        assert(t0[key][j].0 == ik);
                    }
                }
                if b0.contains_key(key) && keyed_in(t0[key], ik) {
                    let j = choose|j: int| 0 <= j < t0[key].len() && t0[key][j].0 == ik;
                    assert(rec0[j].0 == ik);
                    assert(rec0.contains(rec0[j]));
                    let t = choose|t: int| 0 <= t < ch_v.len() && ch_v[t] == ik;
                    assert(changed@[t] == ik);
                }
                match now {
                    Some(es) => {
                        if keyed_in(es, ik) {
                            let j = choose|j: int| 0 <= j < es.len() && es[j].0 == ik;
                            assert(changed@.contains(given[j].0));
                        }
                    },
                    None => {},
                }
            }
        }
        self.prune(&changed);
        proof {
            let f3 = self.fwd@;
            let b3 = self.bwd@;
            // a slot that another key recorded before is untouched throughout
            assert forall|k: K, ik: I, pos: usize| k != key && #[trigger] records(b0, k, ik, pos)
                implies f3.contains_key(ik) && pos < f3[ik]@.len() && f3[ik]@[pos as int]
                == f0[ik]@[pos as int] by {
                assert(holds(f0, ik, pos, k));
                assert(holds(f1, ik, pos, k));
                assert(holds(f2, ik, pos, k));
            }
            let t0 = transformed_of(f0, b0);
            let t3 = transformed_of(f3, b3);
            let expected = match snapshot {
                Some(es) => t0.insert(key, es@),
                None => t0.remove(key),
            };
            assert forall|k: K| #[trigger] t3.contains_key(k) == expected.contains_key(k) by {}
            assert forall|k: K| #[trigger] t3.contains_key(k) implies t3[k] == expected[k] by {
                if k == key {
                    let es = given;
                    assert(placed(f2, key, list_live, es));
                    assert forall|j: int| 0 <= j < es.len() implies #[trigger] t3[k][j] == es[j] by {
                        assert(list_live[j].0 == es[j].0);
                        assert(holds(f2, es[j].0, list_live[j].1, key));
                    }
                    assert(t3[k] =~= es);
                } else {
                    assert forall|j: int| 0 <= j < t3[k].len() implies #[trigger] t3[k][j] == t0[k][j] by {
                        let p = live(b0[k]@)[j];
                        assert(live(b0[k]@).contains(p));
                        lemma_live_contains(b0[k]@, p);
                        assert(records(b0, k, p.0, p.1));
                    }
                    assert(t3[k] =~= t0[k]);
                }
            }
            assert(t3 =~= expected);
        }
        proof {
            let now = match snapshot {
                Some(es) => Some(es@),
                None => None::<Seq<(I, X)>>,
            };
            let expected = updated_views((fwd_view(f0), bwd_view(b0)), key, now);
            match snapshot {
                Some(es) => {
                    assert(bwd_view(self.bwd@) =~= bwd_view(b0).insert(key, list_slots));
                },
                None => {
                    assert(fwd_view(f2) == stripped(fwd_view(f0), key));
                    assert(bwd_view(self.bwd@) =~= bwd_view(b0).remove(key));
                },
            }
            assert((fwd_view(self.fwd@), bwd_view(self.bwd@)) == expected);
        }
        let r = distinct(changed);
        r
    }

    /// The events to emit for the derived keys that an update touched, one
    /// per key and in their order: a removal where no list is left at the
    /// key, else the values derived there.
    pub fn events(&self, changed: Vec<I>) -> (r: Vec<Event<I, Vec<&X>>>)
        requires
            self.wf(),
        ensures
            r@.len() == changed@.len(),
            forall|t: int|
                0 <= t < changed@.len() ==> transform_event(self.fwd_of(), changed@[t], #[trigger] r@[t]),
    {
        let ghost all = changed@;
        let mut rest = reversed(changed);
        let mut out: Vec<Event<I, Vec<&X>>> = Vec::new();
        while rest.len() > 0
            invariant
                self.wf(),
                out@.len() + rest@.len() == all.len(),
                rest@.reverse() == all.subrange(out@.len() as int, all.len() as int),
                forall|t: int| 0 <= t < out@.len() ==> transform_event(self.fwd@, all[t], #[trigger] out@[t]),
            decreases rest.len(),
        {
            let ghost n = out@.len() as int;
            let ghost r0 = rest@;
            let ik = rest.pop().unwrap();
            proof {
                assert(r0.reverse()[0] == r0.last());
                assert(all.subrange(n, all.len() as int)[0] == all[n]);
                assert(rest@ == r0.drop_last());
                assert(r0.reverse().drop_first() =~= rest@.reverse());
                assert(all.subrange(n, all.len() as int).drop_first() =~= all.subrange(
                    n + 1,
                    all.len() as int,
                ));
            }
            let e = match self.fwd.get(&ik) {
                Some(list) => {
                    let entries = list.to_vec();
                    let values = seconds(&entries);
                    proof {
                        let lv = live(self.fwd@[ik]@);
                        assert(entries@.map_values(|e: &(K, X)| *e) == lv);
                        assert forall|j: int| 0 <= j < values@.len() implies *#[trigger] values@[j]
                            == lv[j].1 by {
                            assert(entries@.map_values(|e: &(K, X)| *e)[j] == *entries@[j]);
                        }
                        assert(values@.map_values(|x: &X| *x) =~= lv.map_values(|p: (K, X)| p.1));
                    }
                    Event::Insert { key: ik, value: values }
                },
                None => Event::Remove { key: ik },
            };
            out.push(e);
            proof {
                assert forall|t: int| 0 <= t < out@.len() implies transform_event(
                    self.fwd@,
                    all[t],
                    #[trigger] out@[t],
                ) by {
                    if t < n {
                        assert(out@[t] == out@.drop_last()[t]);
                    }
                }
            }
        }
        out
    }

    /// Rebuilds the materialization from scratch out of the source's
    /// entries, each a source key with what was derived from its value.
    pub fn rebuild(&mut self, entries: &Vec<(K, Vec<(I, X)>)>)
        requires
            old(self).wf(),
        ensures
            final(self).wf(),
            final(self).transformed() == transformed_from(entries@),
            (fwd_view(final(self).fwd_of()), bwd_view(final(self).bwd_of())) == rebuilt_views(entries@),
    {
        self.clear();
        let mut i: usize = 0;
        assert(entries@.take(0) =~= Seq::<(K, Vec<(I, X)>)>::empty());
        assert(fwd_view(self.fwd@) =~= Map::<I, Seq<Option<(K, X)>>>::empty());
        assert(bwd_view(self.bwd@) =~= Map::<K, Seq<Option<(I, usize)>>>::empty());
        while i < entries.len()
            invariant
                self.wf(),
                0 <= i <= entries@.len(),
                self.transformed() == transformed_from(entries@.take(i as int)),
                (fwd_view(self.fwd@), bwd_view(self.bwd@)) == rebuilt_views(entries@.take(i as int)),
            decreases entries@.len() - i,
        {
            let key = entries[i].0.clone();
            let es = clone_entries(&entries[i].1);
            proof {
                assert(strictly_cloned(entries@[i as int].0, key));
                assert(entries@.take(i as int + 1).drop_last() =~= entries@.take(i as int));
            }
            self.update(key, Some(es));
            i = i + 1;
        }
        assert(entries@.take(i as int) =~= entries@);
    }

    /// Empties both maps.
    pub fn clear(&mut self)
        requires
            old(self).wf(),
        ensures
            final(self).wf(),
            final(self).transformed() == Map::<K, Seq<(I, X)>>::empty(),
            final(self).fwd_of() == Map::<I, StableVec<(K, X)>>::empty(),
            final(self).bwd_of() == Map::<K, StableVec<(I, usize)>>::empty(),
    {
        self.fwd.clear();
        self.bwd.clear();
        assert(self.transformed() =~= Map::<K, Seq<(I, X)>>::empty());
    }
}

/// The second parts of `entries`, in order.
fn seconds<'a, K, X>(entries: &Vec<&'a (K, X)>) -> (r: Vec<&'a X>)
    ensures
        r@.len() == entries@.len(),
        forall|j: int| 0 <= j < entries@.len() ==> *#[trigger] r@[j] == entries@[j].1,
{
    let mut out: Vec<&'a X> = Vec::new();
    let mut i: usize = 0;
    while i < entries.len()
        invariant
            0 <= i <= entries@.len(),
            out@.len() == i,
            forall|j: int| 0 <= j < i ==> *#[trigger] out@[j] == entries@[j].1,
        decreases entries@.len() - i,
    {
        let e: &'a (K, X) = entries[i];
        out.push(&e.1);
        i = i + 1;
    }
    out
}

/// The items of `items`, each once.
fn distinct<I: Ord + Clone>(items: Vec<I>) -> (r: Vec<I>)
    requires
        obeys_cmp::<I>(),
        clones_equal::<I>(),
    ensures
        r@.no_duplicates(),
        forall|x: I| #[trigger] r@.contains(x) <==> items@.contains(x),
{
    let ghost all = items@;
    let mut items = items;
    let mut seen: Loaded<I, ()> = Loaded::new();
    let mut out: Vec<I> = Vec::new();
    while items.len() > 0
        invariant
            obeys_cmp::<I>(),
            clones_equal::<I>(),
            out@.no_duplicates(),
            forall|x: I| #[trigger] out@.contains(x) <==> seen@.contains_key(x),
            forall|x: I| #[trigger] all.contains(x) <==> (items@.contains(x) || out@.contains(x)),
        decreases items.len(),
    {
        let ghost before = items@;
        let ghost o0 = out@;
        let ghost s0 = seen@;
        let x = items.pop().unwrap();
        assert(before == items@.push(x));
        assert(o0.contains(x) <==> s0.contains_key(x));
        if !seen.contains_key(&x) {
            let c = x.clone();
            assert(strictly_cloned(x, c));
            seen.insert(c, ());
            out.push(x);
            assert(out@ == o0.push(x));
        }
        assert forall|y: I| #[trigger] all.contains(y) <==> (items@.contains(y) || out@.contains(y)) by {
            if before.contains(y) {
                let t = choose|t: int| 0 <= t < before.len() && before[t] == y;
                if t < items@.len() {
                    assert(items@[t] == y);
                } else {
                    assert(y == x);
                    if o0.contains(x) {
                        let u = choose|u: int| 0 <= u < o0.len() && o0[u] == x;
                        assert(out@[u] == x);
                    } else {
                        assert(out@[o0.len() as int] == x);
                    }
                }
            }
            if items@.contains(y) {
                let t = choose|t: int| 0 <= t < items@.len() && items@[t] == y;
                assert(before[t] == y);
            }
            if out@.contains(y) && !o0.contains(y) {
                assert(y == x);
                assert(before[before.len() - 1] == y);
            }
            if o0.contains(y) {
                let u = choose|u: int| 0 <= u < o0.len() && o0[u] == y;
                assert(out@[u] == y);
            }
        }
        assert forall|y: I| #[trigger] out@.contains(y) <==> seen@.contains_key(y) by {
            assert(o0.contains(y) <==> s0.contains_key(y));
            if o0.contains(y) {
                let u = choose|u: int| 0 <= u < o0.len() && o0[u] == y;
                assert(out@[u] == y);
            }
            if out@ != o0 {
                assert(out@ == o0.push(x));
                assert(seen@ == s0.insert(x, ()));
                if out@.contains(y) && !o0.contains(y) {
                    let u = choose|u: int| 0 <= u < out@.len() && out@[u] == y;
                    assert(u == o0.len());
                }
                if y == x {
                    assert(out@[o0.len() as int] == x);
                }
            } else {
                assert(seen@ == s0);
            }
        }
    }
    out
}

fn clone_entries<I: Clone, X: Clone>(es: &Vec<(I, X)>) -> (r: Vec<(I, X)>)
    requires
        clones_equal::<I>(),
        clones_equal::<X>(),
    ensures
        r@ == es@,
{
    let mut r: Vec<(I, X)> = Vec::new();
    let mut i: usize = 0;
    while i < es.len()
        invariant
            clones_equal::<I>(),
            clones_equal::<X>(),
            0 <= i <= es@.len(),
            r@ == es@.take(i as int),
        decreases es@.len() - i,
    {
        let a = es[i].0.clone();
        let b = es[i].1.clone();
        assert(strictly_cloned(es@[i as int].0, a));
        assert(strictly_cloned(es@[i as int].1, b));
        r.push((a, b));
        assert(r@ =~= es@.take(i as int + 1));
        i = i + 1;
    }
    assert(es@.take(i as int) =~= es@);
    r
}

/// The indexed keys of each source key, after taking `entries` in order.
pub open spec fn indexed_from<K, I>(entries: Seq<(K, Vec<I>)>) -> Map<K, Seq<I>>
    decreases entries.len(),
{
    if entries.len() == 0 {
        Map::empty()
    } else {
        indexed_from(entries.drop_last()).insert(entries.last().0, entries.last().1@)
    }
}

/// The values that `source` holds at `keys`, in order, skipping keys it lacks.
pub open spec fn resolved<K, V>(keys: Seq<K>, source: Map<K, V>) -> Seq<V>
    decreases keys.len(),
{
    if keys.len() == 0 {
        Seq::empty()
    } else {
        let rest = resolved(keys.drop_last(), source);
        if source.contains_key(keys.last()) {
            rest.push(source[keys.last()])
        } else {
            rest
        }
    }
}

/// The forward and backward lists that an index rebuild from `entries` makes.
pub open spec fn index_rebuilt_views<K, I>(entries: Seq<(K, Vec<I>)>) -> (
    Map<I, Seq<Option<(K, ())>>>,
    Map<K, Seq<Option<(I, usize)>>>,
)
    decreases entries.len(),
{
    if entries.len() == 0 {
        (Map::empty(), Map::empty())
    } else {
        updated_views(
            index_rebuilt_views(entries.drop_last()),
            entries.last().0,
            Some(entries.last().1@.map_values(|ik: I| (ik, ()))),
        )
    }
}

/// The indexed keys of a list of derived entries that carry no value.
pub open spec fn keys_of<I>(entries: Seq<(I, ())>) -> Seq<I> {
    entries.map_values(|e: (I, ())| e.0)
}

/// An index kept in memory: for each indexed key, the source keys whose
/// values the indexer gave it.
#[verifier::reject_recursive_types(K)]
#[verifier::reject_recursive_types(I)]
pub struct MaterialIndex<K, I> {
    inner: MaterialTransform<K, I, ()>,
}

impl<K: Ord + Clone, I: Ord + Clone> MaterialIndex<K, I> {
    pub closed spec fn inner_of(&self) -> MaterialTransform<K, I, ()> {
        self.inner
    }

    pub open spec fn wf(&self) -> bool {
        self.inner_of().wf()
    }

    /// The indexed keys recorded for each source key, in the order the indexer gave them.
    pub open spec fn indexed(&self) -> Map<K, Seq<I>> {
        self.inner_of().transformed().map_values(|es: Seq<(I, ())>| keys_of(es))
    }

    /// The forward and backward lists, slot for slot.
    pub open spec fn views(&self) -> (Map<I, Seq<Option<(K, ())>>>, Map<K, Seq<Option<(I, usize)>>>) {
        (fwd_view(self.inner_of().fwd_of()), bwd_view(self.inner_of().bwd_of()))
    }

    /// The source keys listed at `ik`, in slot order.
    pub open spec fn listed(&self, ik: I) -> Seq<K> {
        let f = self.inner_of().fwd_of();
        if f.contains_key(ik) {
            live(f[ik]@).map_values(|e: (K, ())| e.0)
        } else {
            Seq::empty()
        }
    }

    /// An empty index.
    pub fn new() -> (r: Self)
        ensures
            r.indexed() == Map::<K, Seq<I>>::empty(),
            obeys_cmp::<K>() && obeys_cmp::<I>() && clones_equal::<K>() && clones_equal::<I>()
                ==> r.wf(),
    {
        let r = MaterialIndex { inner: MaterialTransform::new() };
        assert(r.inner_of().transformed() =~= Map::<K, Seq<(I, ())>>::empty());
        assert(r.indexed() =~= Map::<K, Seq<I>>::empty());
        r
    }

    /// The source keys listed at `ik`.
    pub fn get(&self, ik: &I) -> (r: Vec<&K>)
        requires
            self.wf(),
        ensures
            r@.map_values(|k: &K| *k) == self.listed(*ik),
    {
        let entries = self.inner.get(ik);
        let ghost whole = entries@.map_values(|e: &(K, ())| *e);
        let mut out: Vec<&K> = Vec::new();
        let mut i: usize = 0;
        while i < entries.len()
            invariant
                0 <= i <= entries@.len(),
                out@.map_values(|k: &K| *k) == entries@.take(i as int).map_values(|e: &(K, ())| e.0),
            decreases entries@.len() - i,
        {
            let e: &(K, ()) = entries[i];
            let ghost o0 = out@;
            out.push(&e.0);
            assert(entries@.take(i as int + 1) =~= entries@.take(i as int).push(e));
            assert(out@.map_values(|k: &K| *k) =~= o0.map_values(|k: &K| *k).push(e.0));
            assert(entries@.take(i as int + 1).map_values(|e: &(K, ())| e.0) =~= entries@.take(
                i as int,
            ).map_values(|e: &(K, ())| e.0).push(e.0));
            i = i + 1;
        }
        assert(entries@.take(i as int) =~= entries@);
        assert(out@.map_values(|k: &K| *k) =~= self.listed(*ik));
        out
    }

    /// The values that `source` holds at the source keys listed at `ik`, or
    /// `None` where it holds none; read from `source` at the time of the call,
    /// so a removal that the index has not taken yet does not show a stale value.
    pub fn get_values<'a, V>(&self, ik: &I, source: &'a Loaded<K, V>) -> (r: Option<Vec<&'a V>>)
        requires
            self.wf(),
        ensures
            r is None <==> resolved(self.listed(*ik), source@).len() == 0,
            r matches Some(vs) ==> vs@.map_values(|v: &V| *v) == resolved(self.listed(*ik), source@),
    {
        let values = self.values_at(ik, source);
        if values.len() == 0 {
            None
        } else {
            Some(values)
        }
    }

    /// The values that `source` holds at the source keys listed at `ik`, in order.
    fn values_at<'a, V>(&self, ik: &I, source: &'a Loaded<K, V>) -> (r: Vec<&'a V>)
        requires
            self.wf(),
        ensures
            r@.map_values(|v: &V| *v) == resolved(self.listed(*ik), source@),
    {
        let keys = self.get(ik);
        let ghost listed = self.listed(*ik);
        let mut values: Vec<&'a V> = Vec::new();
        let mut i: usize = 0;
        while i < keys.len()
            invariant
                obeys_cmp::<K>(),
                0 <= i <= keys@.len(),
                keys@.map_values(|k: &K| *k) == listed,
                values@.map_values(|v: &V| *v) == resolved(listed.take(i as int), source@),
            decreases keys@.len() - i,
        {
            let k: &K = keys[i];
            proof {
                assert(listed[i as int] == *k);
                assert(listed.take(i as int + 1).drop_last() =~= listed.take(i as int));
                assert(listed.take(i as int + 1).last() == *k);
            }
            match source.get(k) {
                Some(v) => {
                    let ghost before = values@;
                    values.push(v);
                    assert(values@.map_values(|v: &V| *v) =~= before.map_values(|v: &V| *v).push(*v));
                },
                None => {},
            }
            i = i + 1;
        }
        assert(listed.take(i as int) =~= listed);
        values
    }

    /// Whether a forward list stands at `ik`; by well-formedness, exactly
    /// when some source key is listed there.
    pub open spec fn has_list(&self, ik: I) -> bool {
        self.inner_of().fwd_of().contains_key(ik)
    }

    /// The events to emit for the indexed keys that an update touched, one
    /// per key and in their order: a removal where no list is left at the
    /// key, else the values that `source` holds at the source keys listed there.
    pub fn events<'a, V>(&self, changed: Vec<I>, source: &'a Loaded<K, V>) -> (r: Vec<
        Event<I, Vec<&'a V>>,
    >)
        requires
            self.wf(),
        ensures
            r@.len() == changed@.len(),
            forall|t: int|
                0 <= t < changed@.len() ==> index_event(
                    self.has_list(changed@[t]),
                    changed@[t],
                    resolved(self.listed(changed@[t]), source@),
                    #[trigger] r@[t],
                ),
    {
        let ghost all = changed@;
        let mut rest = reversed(changed);
        let mut out: Vec<Event<I, Vec<&'a V>>> = Vec::new();
        while rest.len() > 0
            invariant
                self.wf(),
                out@.len() + rest@.len() == all.len(),
                rest@.reverse() == all.subrange(out@.len() as int, all.len() as int),
                forall|t: int|
                    0 <= t < out@.len() ==> index_event(
                        self.has_list(all[t]),
                        all[t],
                        resolved(self.listed(all[t]), source@),
                        #[trigger] out@[t],
                    ),
            decreases rest.len(),
        {
            let ghost n = out@.len() as int;
            let ghost r0 = rest@;
            let ik = rest.pop().unwrap();
            proof {
                assert(r0.reverse()[0] == r0.last());
                assert(all.subrange(n, all.len() as int)[0] == all[n]);
                assert(rest@ == r0.drop_last());
                assert(r0.reverse().drop_first() =~= rest@.reverse());
                assert(all.subrange(n, all.len() as int).drop_first() =~= all.subrange(
                    n + 1,
                    all.len() as int,
                ));
            }
            let e = if self.inner.fwd.contains_key(&ik) {
                let values = self.values_at(&ik, source);
                Event::Insert { key: ik, value: values }
            } else {
                Event::Remove { key: ik }
            };
            out.push(e);
            proof {
                assert forall|t: int| 0 <= t < out@.len() implies index_event(
                    self.has_list(all[t]),
                    all[t],
                    resolved(self.listed(all[t]), source@),
                    #[trigger] out@[t],
                ) by {
                    if t < n {
                        assert(out@[t] == out@.drop_last()[t]);
                    }
                }
            }
        }
        out
    }

    /// Brings the index up to date with a change at source key `key`:
    /// `Some` with what the indexer gave for its new value, or `None` where
    /// the key was removed. Returns the indexed keys whose lists were touched.
    pub fn update(&mut self, key: K, iks: Option<Vec<I>>) -> (r: Vec<I>)
        requires
            old(self).wf(),
        ensures
            final(self).wf(),
            final(self).indexed() == match iks {
                Some(v) => old(self).indexed().insert(key, v@),
                None => old(self).indexed().remove(key),
            },
            forall|ik: I| !r@.contains(ik) ==> #[trigger] final(self).listed(ik) == old(self).listed(ik),
            r@.no_duplicates(),
            forall|ik: I|
                #[trigger] r@.contains(ik) <==> ((old(self).indexed().contains_key(key) && old(
                    self,
                ).indexed()[key].contains(ik)) || match iks {
                    Some(v) => v@.contains(ik),
                    None => false,
                }),
    {
        let ghost snapshot = iks;
        let entries = match iks {
            Some(v) => Some(with_unit(&v)),
            None => None,
        };
        let r = self.inner.update(key, entries);
        proof {
            let expected = match snapshot {
                Some(v) => old(self).indexed().insert(key, v@),
                None => old(self).indexed().remove(key),
            };
            assert(self.indexed() =~= expected);
            assert forall|ik: I| !r@.contains(ik) implies #[trigger] self.listed(ik) == old(self).listed(ik) by {
                assert(self.inner.fwd@.contains_key(ik) == old(self).inner.fwd@.contains_key(ik));
            }
            let t0 = old(self).inner_of().transformed();
            assert forall|ik: I| #[trigger] r@.contains(ik) <==> ((old(self).indexed().contains_key(key)
                && old(self).indexed()[key].contains(ik)) || match snapshot {
                Some(v) => v@.contains(ik),
                None => false,
            }) by {
                if t0.contains_key(key) {
                    if keyed_in(t0[key], ik) {
                        let j = choose|j: int| 0 <= j < t0[key].len() && t0[key][j].0 == ik;
                        assert(keys_of(t0[key])[j] == ik);
                    }
                    if old(self).indexed()[key].contains(ik) {
                        let j = choose|j: int| 0 <= j < keys_of(t0[key]).len() && keys_of(t0[key])[j] == ik;
                        assert(t0[key][j].0 == ik);
                    }
                }
                match snapshot {
                    Some(v) => {
                        let es = entries->Some_0@;
                        assert(keys_of(es) == v@);
                        if keyed_in(es, ik) {
                            let j = choose|j: int| 0 <= j < es.len() && es[j].0 == ik;
                            assert(v@[j] == ik);
                        }
                        if v@.contains(ik) {
                            let j = choose|j: int| 0 <= j < v@.len() && v@[j] == ik;
                            assert(keys_of(es)[j] == ik);
                        }
                    },
                    None => {},
                }
            }
        }
        r
    }

    /// Rebuilds the index from scratch out of the source's entries, each a
    /// source key with what the indexer gave for its value.
    pub fn rebuild(&mut self, entries: &Vec<(K, Vec<I>)>)
        requires
            old(self).wf(),
        ensures
            final(self).wf(),
            final(self).indexed() == indexed_from(entries@),
            final(self).views() == index_rebuilt_views(entries@),
    {
        self.inner.clear();
        assert(self.indexed() =~= Map::<K, Seq<I>>::empty());
        let mut i: usize = 0;
        assert(entries@.take(0) =~= Seq::<(K, Vec<I>)>::empty());
        assert(fwd_view(self.inner.fwd@) =~= Map::<I, Seq<Option<(K, ())>>>::empty());
        assert(bwd_view(self.inner.bwd@) =~= Map::<K, Seq<Option<(I, usize)>>>::empty());
        while i < entries.len()
            invariant
                self.wf(),
                0 <= i <= entries@.len(),
                self.indexed() == indexed_from(entries@.take(i as int)),
                self.views() == index_rebuilt_views(entries@.take(i as int)),
            decreases entries@.len() - i,
        {
            let key = entries[i].0.clone();
            let iks = with_unit(&entries[i].1);
            proof {
                assert(strictly_cloned(entries@[i as int].0, key));
                assert(entries@.take(i as int + 1).drop_last() =~= entries@.take(i as int));
            }
            let ghost before = self.indexed();
            self.inner.update(key, Some(iks));
            assert(self.indexed() =~= before.insert(key, entries@[i as int].1@));
            i = i + 1;
        }
        assert(entries@.take(i as int) =~= entries@);
    }
}

fn with_unit<I: Clone>(iks: &Vec<I>) -> (r: Vec<(I, ())>)
    requires
        clones_equal::<I>(),
    ensures
        keys_of(r@) == iks@,
        r@ == iks@.map_values(|ik: I| (ik, ())),
{
    let mut r: Vec<(I, ())> = Vec::new();
    let mut i: usize = 0;
    while i < iks.len()
        invariant
            clones_equal::<I>(),
            0 <= i <= iks@.len(),
            keys_of(r@) == iks@.take(i as int),
            r@ == iks@.take(i as int).map_values(|ik: I| (ik, ())),
        decreases iks@.len() - i,
    {
        let ik = iks[i].clone();
        assert(strictly_cloned(iks@[i as int], ik));
        let ghost r0 = r@;
        r.push((ik, ()));
        assert(keys_of(r@) =~= keys_of(r0).push(ik));
        assert(r@ =~= iks@.take(i as int + 1).map_values(|ik: I| (ik, ())));
        assert(iks@.take(i as int + 1) =~= iks@.take(i as int).push(iks@[i as int]));
        i = i + 1;
    }
    assert(iks@.take(i as int) =~= iks@);
    assert(iks@.take(0).map_values(|ik: I| (ik, ())) =~= Seq::<(I, ())>::empty());
    r
}

/// What an index lists at an indexed key is exactly the source keys whose
/// indexer results contain it.
pub proof fn lemma_listed_iff_indexed<K: Ord + Clone, I: Ord + Clone>(
    index: &MaterialIndex<K, I>,
    ik: I,
    k: K,
)
    requires
        index.wf(),
    ensures
        index.listed(ik).contains(k) <==> (index.indexed().contains_key(k)
            && index.indexed()[k].contains(ik)),
{
    let t = index.inner_of();
    let f = t.fwd_of();
    let b = t.bwd_of();
    if index.listed(ik).contains(k) {
        let u = choose|u: int| 0 <= u < index.listed(ik).len() && index.listed(ik)[u] == k;
        let e = live(f[ik]@)[u];
        assert(live(f[ik]@).contains(e));
        lemma_live_contains(f[ik]@, e);
        let j = choose|j: int| 0 <= j < f[ik]@.len() && f[ik]@[j] == Some(e);
        f[ik].lemma_slots_fit();
        assert(holds(f, ik, j as usize, k));
        assert(records(b, k, ik, j as usize));
        let w = choose|w: int| 0 <= w < b[k]@.len() && b[k]@[w] == Some((ik, j as usize));
        lemma_live_contains(b[k]@, (ik, j as usize));
        let v = choose|v: int| 0 <= v < live(b[k]@).len() && live(b[k]@)[v] == (ik, j as usize);
        assert(index.indexed()[k][v] == ik);
    }
    if index.indexed().contains_key(k) && index.indexed()[k].contains(ik) {
        let v = choose|v: int| 0 <= v < index.indexed()[k].len() && index.indexed()[k][v] == ik;
        let p = live(b[k]@)[v];
        assert(live(b[k]@).contains(p));
        lemma_live_contains(b[k]@, p);
        assert(records(b, k, ik, p.1));
        assert(holds(f, ik, p.1, k));
        let e = f[ik]@[p.1 as int]->Some_0;
        lemma_live_contains(f[ik]@, e);
        let u = choose|u: int| 0 <= u < live(f[ik]@).len() && live(f[ik]@)[u] == e;
        assert(index.listed(ik)[u] == k);
    }
}

/// Where the indexer gives each indexed key at most once per source key, an
/// index lists each source key at most once at an indexed key: with the
/// membership law, what is listed at `ik` is exactly, as a multiset, the
/// source keys whose indexer results contain `ik`.
pub proof fn lemma_listed_once<K: Ord + Clone, I: Ord + Clone>(index: &MaterialIndex<K, I>, ik: I)
    requires
        index.wf(),
        forall|k: K| #[trigger]
            index.indexed().contains_key(k) ==> index.indexed()[k].no_duplicates(),
    ensures
        index.listed(ik).no_duplicates(),
{
    let t = index.inner_of();
    let f = t.fwd_of();
    let b = t.bwd_of();
    if f.contains_key(ik) {
        let l = index.listed(ik);
        assert forall|a: int, c: int| 0 <= a < l.len() && 0 <= c < l.len() && a != c implies l[a]
            != l[c] by {
            if l[a] == l[c] {
                let (x, y) = if a < c {
                    (a, c)
                } else {
                    (c, a)
                };
                let slots = f[ik]@;
                lemma_live_index(slots, x, y);
                f[ik].lemma_slots_fit();
                let px = live_index(slots, x);
                let py = live_index(slots, y);
                let k = l[x];
                assert(holds(f, ik, px as usize, k));
                assert(holds(f, ik, py as usize, k));
                assert(records(b, k, ik, px as usize));
                assert(records(b, k, ik, py as usize));
                let jx = choose|j: int| 0 <= j < b[k]@.len() && b[k]@[j] == Some((ik, px as usize));
                let jy = choose|j: int| 0 <= j < b[k]@.len() && b[k]@[j] == Some((ik, py as usize));
                lemma_live_contains(b[k]@, (ik, px as usize));
                lemma_live_contains(b[k]@, (ik, py as usize));
                let lb = live(b[k]@);
                let ux = choose|u: int| 0 <= u < lb.len() && lb[u] == (ik, px as usize);
                let uy = choose|u: int| 0 <= u < lb.len() && lb[u] == (ik, py as usize);
                assert(ux != uy);
                assert(index.indexed().contains_key(k));
                assert(index.indexed()[k][ux] == ik);
                assert(index.indexed()[k][uy] == ik);
            }
        }
    }
}

/// Rebuilding gives the same forward and backward lists, slot for slot,
/// whatever was there before, so a second rebuild from the same entries
/// leaves exactly what the first made.
pub proof fn lemma_rebuild_idempotent<K: Ord + Clone, I: Ord + Clone, X: Clone>(
    once: &MaterialTransform<K, I, X>,
    twice: &MaterialTransform<K, I, X>,
    entries: Seq<(K, Vec<(I, X)>)>,
)
    requires
        (fwd_view(once.fwd_of()), bwd_view(once.bwd_of())) == rebuilt_views(entries),
        (fwd_view(twice.fwd_of()), bwd_view(twice.bwd_of())) == rebuilt_views(entries),
    ensures
        fwd_view(once.fwd_of()) == fwd_view(twice.fwd_of()),
        bwd_view(once.bwd_of()) == bwd_view(twice.bwd_of()),
{
}


} // verus!
