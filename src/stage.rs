use vstd::prelude::*;

use crate::event::{applied, applied_all, Event};
use crate::loaded::{lookup, map_from, Loaded};
use vstd::laws_cmp::obeys_cmp;

verus! {

/// `out` is what a map stage emits for `event` when `f` maps values.
pub open spec fn map_step<K, V, M, F: Fn(&K, &V) -> M>(
    f: F,
    event: Event<K, V>,
    out: Event<K, M>,
) -> bool {
    match event {
        Event::Insert { key, value } => match out {
            Event::Insert { key: k, value: m } => k == key && f.ensures((&key, &value), m),
            Event::Remove { .. } => false,
        },
        Event::Remove { key } => out == Event::<K, M>::Remove { key },
    }
}

/// `out` is what a filter stage emits for `event` when `p` decides which values stay.
pub open spec fn filter_step<K, V, F: Fn(&K, &V) -> bool>(
    p: F,
    event: Event<K, V>,
    out: Event<K, V>,
) -> bool {
    match event {
        Event::Insert { key, value } => {
            ||| (out == event && p.ensures((&key, &value), true))
            ||| (out == Event::<K, V>::Remove { key } && p.ensures((&key, &value), false))
        },
        Event::Remove { key } => out == event,
    }
}

/// `out` is what a filter-map stage emits for `event` when `f` maps values or drops them.
pub open spec fn filter_map_step<K, V, M, F: Fn(&K, &V) -> Option<M>>(
    f: F,
    event: Event<K, V>,
    out: Event<K, M>,
) -> bool {
    match event {
        Event::Insert { key, value } => match out {
            Event::Insert { key: k, value: m } => k == key && f.ensures((&key, &value), Some(m)),
            Event::Remove { key: k } => k == key && f.ensures((&key, &value), None::<M>),
        },
        Event::Remove { key } => out == Event::<K, M>::Remove { key },
    }
}

/// The event a map stage emits for an upstream event.
pub fn map_event<K, V, M, F: Fn(&K, &V) -> M>(f: &F, event: Event<K, V>) -> (r: Event<K, M>)
    requires
        forall|k: &K, v: &V| f.requires((k, v)),
    ensures
        map_step(*f, event, r),
{
    match event {
        Event::Insert { key, value } => {
            let m = f(&key, &value);
            Event::Insert { key, value: m }
        },
        Event::Remove { key } => Event::Remove { key },
    }
}

/// The event a filter stage emits for an upstream event: an insert whose
/// value fails the predicate becomes a removal.
pub fn filter_event<K, V, F: Fn(&K, &V) -> bool>(p: &F, event: Event<K, V>) -> (r: Event<K, V>)
    requires
        forall|k: &K, v: &V| p.requires((k, v)),
    ensures
        filter_step(*p, event, r),
{
    match event {
        Event::Insert { key, value } => {
            let keep = p(&key, &value);
            if keep {
                Event::Insert { key, value }
            } else {
                Event::Remove { key }
            }
        },
        Event::Remove { key } => Event::Remove { key },
    }
}

/// The event a filter-map stage emits for an upstream event.
pub fn filter_map_event<K, V, M, F: Fn(&K, &V) -> Option<M>>(f: &F, event: Event<K, V>) -> (r:
    Event<K, M>)
    requires
        forall|k: &K, v: &V| f.requires((k, v)),
    ensures
        filter_map_step(*f, event, r),
{
    match event {
        Event::Insert { key, value } => {
            let m = f(&key, &value);
            match m {
                Some(m) => Event::Insert { key, value: m },
                None => Event::Remove { key },
            }
        },
        Event::Remove { key } => Event::Remove { key },
    }
}

/// The event a chain emits for an event of its preferred side: the same event.
pub fn chain_event_from_a<K, V>(event: Event<K, V>) -> (r: Event<K, V>)
    ensures
        r == event,
{
    event
}

/// The event a chain emits for an event of its second side, given the
/// preferred side's current value at that key: where the preferred side has
/// a value, that value wins.
pub fn chain_event_from_b<K, V>(event: Event<K, V>, a_value: Option<V>) -> (r: Event<K, V>)
    ensures
        r == match a_value {
            Some(a) => Event::Insert { key: event.key_of(), value: a },
            None => event,
        },
{
    match a_value {
        Some(a) => {
            let key = match event {
                Event::Insert { key, .. } => key,
                Event::Remove { key } => key,
            };
            Event::Insert { key, value: a }
        },
        None => event,
    }
}

/// What a map stage answers to `lt`, `gt`, `first` or `last`, given the
/// upstream's answer: that entry with its value mapped.
pub fn map_entry<K, V, M, F: Fn(&K, &V) -> M>(f: &F, upstream: Option<(K, V)>) -> (r: Option<(K, M)>)
    requires
        forall|k: &K, v: &V| f.requires((k, v)),
    ensures
        upstream is None ==> r is None,
        upstream matches Some(e) ==> (r matches Some(o) && o.0 == e.0 && f.ensures((&e.0, &e.1), o.1)),
{
    match upstream {
        Some((k, v)) => {
            let m = f(&k, &v);
            Some((k, m))
        },
        None => None,
    }
}

/// What a filter stage answers to `lt`, `gt`, `first` or `last`, given the
/// upstream's answer: that entry if the predicate keeps it, else nothing.
pub fn filter_entry<K, V, F: Fn(&K, &V) -> bool>(p: &F, upstream: Option<(K, V)>) -> (r: Option<
    (K, V),
>)
    requires
        forall|k: &K, v: &V| p.requires((k, v)),
    ensures
        upstream is None ==> r is None,
        upstream matches Some(e) ==> ((r == Some(e) && p.ensures((&e.0, &e.1), true)) || (r is None
            && p.ensures((&e.0, &e.1), false))),
{
    match upstream {
        Some((k, v)) => {
            if p(&k, &v) {
                Some((k, v))
            } else {
                None
            }
        },
        None => None,
    }
}

/// What a filter-map stage answers to `lt`, `gt`, `first` or `last`, given
/// the upstream's answer: that entry's key with what `f` makes of it, if anything.
pub fn filter_map_entry<K, V, M, F: Fn(&K, &V) -> Option<M>>(f: &F, upstream: Option<(K, V)>) -> (r:
    Option<(K, M)>)
    requires
        forall|k: &K, v: &V| f.requires((k, v)),
    ensures
        upstream is None ==> r is None,
        upstream matches Some(e) ==> ((r matches Some(o) && o.0 == e.0 && f.ensures(
            (&e.0, &e.1),
            Some(o.1),
        )) || (r is None && f.ensures((&e.0, &e.1), None::<M>))),
{
    match upstream {
        Some((k, v)) => match f(&k, &v) {
            Some(m) => Some((k, m)),
            None => None,
        },
        None => None,
    }
}

/// The pair that a zip holds at a key, given both sides' values there.
pub open spec fn zipped<A, B>(a: Option<A>, b: Option<B>) -> Option<(Option<A>, Option<B>)> {
    if a is None && b is None {
        None
    } else {
        Some((a, b))
    }
}

/// The event that a zip emits at `key` once one side has changed there.
pub open spec fn zip_out<K, A, B>(key: K, a: Option<A>, b: Option<B>) -> Event<
    K,
    (Option<A>, Option<B>),
> {
    match zipped(a, b) {
        Some(pair) => Event::Insert { key, value: pair },
        None => Event::Remove { key },
    }
}

/// The value an event leaves at its key.
pub open spec fn value_after<K, V>(event: Event<K, V>) -> Option<V> {
    match event {
        Event::Insert { value, .. } => Some(value),
        Event::Remove { .. } => None,
    }
}

/// The event a zip emits for an event of its first side, given the second side's value there.
pub fn zip_event_from_a<K, A, B>(event: Event<K, A>, b_value: Option<B>) -> (r: Event<
    K,
    (Option<A>, Option<B>),
>)
    ensures
        r == zip_out(event.key_of(), value_after(event), b_value),
{
    let (key, a) = match event {
        Event::Insert { key, value } => (key, Some(value)),
        Event::Remove { key } => (key, None),
    };
    zip_pair(key, a, b_value)
}

/// The event a zip emits for an event of its second side, given the first side's value there.
pub fn zip_event_from_b<K, A, B>(event: Event<K, B>, a_value: Option<A>) -> (r: Event<
    K,
    (Option<A>, Option<B>),
>)
    ensures
        r == zip_out(event.key_of(), a_value, value_after(event)),
{
    let (key, b) = match event {
        Event::Insert { key, value } => (key, Some(value)),
        Event::Remove { key } => (key, None),
    };
    zip_pair(key, a_value, b)
}

fn zip_pair<K, A, B>(key: K, a: Option<A>, b: Option<B>) -> (r: Event<K, (Option<A>, Option<B>)>)
    ensures
        r == zip_out(key, a, b),
{
    if a.is_none() && b.is_none() {
        Event::Remove { key }
    } else {
        Event::Insert { key, value: (a, b) }
    }
}

/// What a map stage answers at `key`, given the upstream value there.
pub fn map_get<K, V, M, F: Fn(&K, &V) -> M>(f: &F, key: &K, upstream: Option<V>) -> (r: Option<M>)
    requires
        forall|k: &K, v: &V| f.requires((k, v)),
    ensures
        upstream is None ==> r is None,
        upstream matches Some(v) ==> (r matches Some(m) && f.ensures((key, &v), m)),
{
    match upstream {
        Some(v) => Some(f(key, &v)),
        None => None,
    }
}

/// What a filter stage answers at `key`, given the upstream value there.
pub fn filter_get<K, V, F: Fn(&K, &V) -> bool>(p: &F, key: &K, upstream: Option<V>) -> (r: Option<V>)
    requires
        forall|k: &K, v: &V| p.requires((k, v)),
    ensures
        upstream is None ==> r is None,
        upstream matches Some(v) ==> ((r == Some(v) && p.ensures((key, &v), true)) || (r is None
            && p.ensures((key, &v), false))),
{
    match upstream {
        Some(v) => {
            if p(key, &v) {
                Some(v)
            } else {
                None
            }
        },
        None => None,
    }
}

/// What a filter-map stage answers at `key`, given the upstream value there.
pub fn filter_map_get<K, V, M, F: Fn(&K, &V) -> Option<M>>(f: &F, key: &K, upstream: Option<V>) -> (r:
    Option<M>)
    requires
        forall|k: &K, v: &V| f.requires((k, v)),
    ensures
        upstream is None ==> r is None,
        upstream matches Some(v) ==> f.ensures((key, &v), r),
{
    match upstream {
        Some(v) => f(key, &v),
        None => None,
    }
}

/// What a chain answers at a key, given both sides' values there: the
/// preferred side's value if it has one, else the other side's.
pub fn chain_get<V>(a: Option<V>, b: Option<V>) -> (r: Option<V>)
    ensures
        r == match a {
            Some(x) => Some(x),
            None => b,
        },
{
    match a {
        Some(x) => Some(x),
        None => b,
    }
}

/// What a zip answers at a key, given both sides' values there.
pub fn zip_get<A, B>(a: Option<A>, b: Option<B>) -> (r: Option<(Option<A>, Option<B>)>)
    ensures
        r == zipped(a, b),
{
    if a.is_none() && b.is_none() {
        None
    } else {
        Some((a, b))
    }
}

/// `mirror` holds what a map stage over `upstream` shows: a value at exactly
/// the upstream's keys, each one what `f` maps the upstream's value to.
pub open spec fn mirrors_map<K, V, M, F: Fn(&K, &V) -> M>(
    f: F,
    upstream: Map<K, V>,
    mirror: Map<K, M>,
) -> bool {
    &&& mirror.dom() == upstream.dom()
    &&& forall|k: K| #[trigger]
        upstream.contains_key(k) ==> f.ensures((&k, &upstream[k]), mirror[k])
}

/// `mirror` holds what a filter stage over `upstream` shows: the upstream's
/// entries that the predicate keeps, and no others.
pub open spec fn mirrors_filter<K, V, F: Fn(&K, &V) -> bool>(
    p: F,
    upstream: Map<K, V>,
    mirror: Map<K, V>,
) -> bool {
    &&& forall|k: K| #[trigger]
        mirror.contains_key(k) ==> upstream.contains_key(k) && mirror[k] == upstream[k]
            && p.ensures((&k, &upstream[k]), true)
    &&& forall|k: K| #[trigger]
        upstream.contains_key(k) && !mirror.contains_key(k) ==> p.ensures(
            (&k, &upstream[k]),
            false,
        )
}

/// A store that takes a map stage's events stays equal to the map of its
/// upstream, whatever event the upstream takes next.
pub proof fn lemma_map_mirror<K, V, M, F: Fn(&K, &V) -> M>(
    f: F,
    upstream: Map<K, V>,
    mirror: Map<K, M>,
    event: Event<K, V>,
    out: Event<K, M>,
)
    requires
        mirrors_map(f, upstream, mirror),
        map_step(f, event, out),
    ensures
        mirrors_map(f, applied(upstream, event), applied(mirror, out)),
{
    let up2 = applied(upstream, event);
    let mi2 = applied(mirror, out);
    assert(mi2.dom() =~= up2.dom());
    assert forall|k: K| #[trigger] up2.contains_key(k) implies f.ensures((&k, &up2[k]), mi2[k]) by {
        if k != event.key_of() {
            assert(upstream.contains_key(k));
        }
    }
}

/// A store that takes a filter stage's events stays equal to the filtered
/// upstream, whatever event the upstream takes next.
pub proof fn lemma_filter_mirror<K, V, F: Fn(&K, &V) -> bool>(
    p: F,
    upstream: Map<K, V>,
    mirror: Map<K, V>,
    event: Event<K, V>,
    out: Event<K, V>,
)
    requires
        mirrors_filter(p, upstream, mirror),
        filter_step(p, event, out),
    ensures
        mirrors_filter(p, applied(upstream, event), applied(mirror, out)),
{
    let up2 = applied(upstream, event);
    let mi2 = applied(mirror, out);
    assert forall|k: K| #[trigger] mi2.contains_key(k) implies up2.contains_key(k) && mi2[k]
        == up2[k] && p.ensures((&k, &up2[k]), true) by {
        if k != event.key_of() {
            assert(mirror.contains_key(k));
        }
    }
    assert forall|k: K| #[trigger] up2.contains_key(k) && !mi2.contains_key(k) implies p.ensures(
        (&k, &up2[k]),
        false,
    ) by {
        if k != event.key_of() {
            assert(upstream.contains_key(k));
        }
    }
}

/// `outs` is what a map stage emits for `events`, one for one.
pub open spec fn map_steps<K, V, M, F: Fn(&K, &V) -> M>(
    f: F,
    events: Seq<Event<K, V>>,
    outs: Seq<Event<K, M>>,
) -> bool {
    &&& outs.len() == events.len()
    &&& forall|i: int| 0 <= i < events.len() ==> map_step(f, #[trigger] events[i], outs[i])
}

/// `outs` is what a filter stage emits for `events`, one for one.
pub open spec fn filter_steps<K, V, F: Fn(&K, &V) -> bool>(
    p: F,
    events: Seq<Event<K, V>>,
    outs: Seq<Event<K, V>>,
) -> bool {
    &&& outs.len() == events.len()
    &&& forall|i: int| 0 <= i < events.len() ==> filter_step(p, #[trigger] events[i], outs[i])
}

/// Once a map stage has passed on every event its upstream took, a store
/// fed by the stage holds the map of the upstream's contents.
pub proof fn lemma_map_mirror_all<K, V, M, F: Fn(&K, &V) -> M>(
    f: F,
    upstream: Map<K, V>,
    mirror: Map<K, M>,
    events: Seq<Event<K, V>>,
    outs: Seq<Event<K, M>>,
)
    requires
        mirrors_map(f, upstream, mirror),
        map_steps(f, events, outs),
    ensures
        mirrors_map(f, applied_all(upstream, events), applied_all(mirror, outs)),
    decreases events.len(),
{
    if events.len() > 0 {
        lemma_map_mirror(f, upstream, mirror, events[0], outs[0]);
        assert forall|i: int| 0 <= i < events.drop_first().len() implies map_step(
            f,
            #[trigger] events.drop_first()[i],
            outs.drop_first()[i],
        ) by {
            assert(map_step(f, events[i + 1], outs[i + 1]));
        }
        lemma_map_mirror_all(
            f,
            applied(upstream, events[0]),
            applied(mirror, outs[0]),
            events.drop_first(),
            outs.drop_first(),
        );
    }
}

/// Once a filter stage has passed on every event its upstream took, a
/// store fed by the stage holds the upstream's entries that the predicate keeps.
pub proof fn lemma_filter_mirror_all<K, V, F: Fn(&K, &V) -> bool>(
    p: F,
    upstream: Map<K, V>,
    mirror: Map<K, V>,
    events: Seq<Event<K, V>>,
    outs: Seq<Event<K, V>>,
)
    requires
        mirrors_filter(p, upstream, mirror),
        filter_steps(p, events, outs),
    ensures
        mirrors_filter(p, applied_all(upstream, events), applied_all(mirror, outs)),
    decreases events.len(),
{
    if events.len() > 0 {
        lemma_filter_mirror(p, upstream, mirror, events[0], outs[0]);
        assert forall|i: int| 0 <= i < events.drop_first().len() implies filter_step(
            p,
            #[trigger] events.drop_first()[i],
            outs.drop_first()[i],
        ) by {
            assert(filter_step(p, events[i + 1], outs[i + 1]));
        }
        lemma_filter_mirror_all(
            p,
            applied(upstream, events[0]),
            applied(mirror, outs[0]),
            events.drop_first(),
            outs.drop_first(),
        );
    }
}

/// `mirror` holds what a zip of `a` and `b` shows: at each key of either
/// side, the pair of both sides' values there.
pub open spec fn mirrors_zip<K, A, B>(
    a: Map<K, A>,
    b: Map<K, B>,
    mirror: Map<K, (Option<A>, Option<B>)>,
) -> bool {
    forall|k: K| #[trigger] lookup(mirror, k) == zipped(lookup(a, k), lookup(b, k))
}

/// A store that takes a zip's events stays equal to the zip of its sides
/// when the first side changes and the event is built with the second
/// side's current value.
pub proof fn lemma_zip_mirror_from_a<K, A, B>(
    a: Map<K, A>,
    b: Map<K, B>,
    mirror: Map<K, (Option<A>, Option<B>)>,
    event: Event<K, A>,
)
    requires
        mirrors_zip(a, b, mirror),
    ensures
        mirrors_zip(
            applied(a, event),
            b,
            applied(mirror, zip_out(event.key_of(), value_after(event), lookup(b, event.key_of()))),
        ),
{
    let a2 = applied(a, event);
    let m2 = applied(mirror, zip_out(event.key_of(), value_after(event), lookup(b, event.key_of())));
    assert forall|k: K| #[trigger] lookup(m2, k) == zipped(lookup(a2, k), lookup(b, k)) by {
        assert(lookup(mirror, k) == zipped(lookup(a, k), lookup(b, k)));
    }
}

/// As [`lemma_zip_mirror_from_a`], for a change of the second side.
pub proof fn lemma_zip_mirror_from_b<K, A, B>(
    a: Map<K, A>,
    b: Map<K, B>,
    mirror: Map<K, (Option<A>, Option<B>)>,
    event: Event<K, B>,
)
    requires
        mirrors_zip(a, b, mirror),
    ensures
        mirrors_zip(
            a,
            applied(b, event),
            applied(mirror, zip_out(event.key_of(), lookup(a, event.key_of()), value_after(event))),
        ),
{
    let b2 = applied(b, event);
    let m2 = applied(mirror, zip_out(event.key_of(), lookup(a, event.key_of()), value_after(event)));
    assert forall|k: K| #[trigger] lookup(m2, k) == zipped(lookup(a, k), lookup(b2, k)) by {
        assert(lookup(mirror, k) == zipped(lookup(a, k), lookup(b, k)));
    }
}

/// `out` is what a map stage yields when iterated over `entries`.
pub open spec fn map_entries_step<K, V, M, F: Fn(&K, &V) -> M>(
    f: F,
    entries: Seq<(K, V)>,
    out: Seq<(K, M)>,
) -> bool {
    &&& out.len() == entries.len()
    &&& forall|i: int|
        0 <= i < entries.len() ==> #[trigger] out[i].0 == entries[i].0 && f.ensures(
            (&entries[i].0, &entries[i].1),
            out[i].1,
        )
}

/// `out` is what a filter stage yields when iterated over `entries`: the
/// entries that the predicate keeps, in order.
pub open spec fn filter_entries_step<K, V, F: Fn(&K, &V) -> bool>(
    p: F,
    entries: Seq<(K, V)>,
    out: Seq<(K, V)>,
) -> bool
    decreases entries.len(),
{
    if entries.len() == 0 {
        out.len() == 0
    } else {
        let e = entries.last();
        ||| (p.ensures((&e.0, &e.1), true) && out.len() > 0 && out.last() == e
            && filter_entries_step(p, entries.drop_last(), out.drop_last()))
        ||| (p.ensures((&e.0, &e.1), false) && filter_entries_step(p, entries.drop_last(), out))
    }
}

/// `out` is what a filter-map stage yields when iterated over `entries`.
pub open spec fn filter_map_entries_step<K, V, M, F: Fn(&K, &V) -> Option<M>>(
    f: F,
    entries: Seq<(K, V)>,
    out: Seq<(K, M)>,
) -> bool
    decreases entries.len(),
{
    if entries.len() == 0 {
        out.len() == 0
    } else {
        let e = entries.last();
        ||| (out.len() > 0 && out.last().0 == e.0 && f.ensures((&e.0, &e.1), Some(out.last().1))
            && filter_map_entries_step(f, entries.drop_last(), out.drop_last()))
        ||| (f.ensures((&e.0, &e.1), None::<M>) && filter_map_entries_step(
            f,
            entries.drop_last(),
            out,
        ))
    }
}

/// The same items in the opposite order.
pub(crate) fn reversed<T>(items: Vec<T>) -> (r: Vec<T>)
    ensures
        r@ == items@.reverse(),
{
    let ghost all = items@;
    let mut items = items;
    let mut r: Vec<T> = Vec::new();
    while items.len() > 0
        invariant
            items@ + r@.reverse() == all,
        decreases items.len(),
    {
        let x = items.pop().unwrap();
        proof {
            assert(items@ + (r@.push(x)).reverse() =~= all);
        }
        r.push(x);
    }
    assert(r@.reverse() =~= all);
    assert(r@.reverse().reverse() =~= r@);
    r
}

/// What a map stage yields when iterated over its upstream's entries.
pub fn map_entries<K, V, M, F: Fn(&K, &V) -> M>(f: &F, entries: Vec<(K, V)>) -> (r: Vec<(K, M)>)
    requires
        forall|k: &K, v: &V| f.requires((k, v)),
    ensures
        map_entries_step(*f, entries@, r@),
{
    let ghost all = entries@;
    let mut rest = reversed(entries);
    let mut out: Vec<(K, M)> = Vec::new();
    while rest.len() > 0
        invariant
            forall|k: &K, v: &V| f.requires((k, v)),
            out@.len() + rest@.len() == all.len(),
            rest@.reverse() == all.subrange(out@.len() as int, all.len() as int),
            map_entries_step(*f, all.take(out@.len() as int), out@),
        decreases rest.len(),
    {
        let ghost n = out@.len() as int;
        let ghost r0 = rest@;
        let (k, v) = rest.pop().unwrap();
        proof {
            assert(r0.reverse()[0] == r0.last());
            assert(all.subrange(n, all.len() as int)[0] == all[n]);
            assert(rest@ == r0.drop_last());
            assert(r0.reverse().drop_first() =~= rest@.reverse());
            assert(all.subrange(n, all.len() as int).drop_first() =~= all.subrange(
                n + 1,
                all.len() as int,
            ));
        }
        let m = f(&k, &v);
        out.push((k, m));
        proof {
            assert forall|i: int| 0 <= i < n + 1 implies #[trigger] out@[i].0 == all.take(n + 1)[i].0
                && f.ensures((&all.take(n + 1)[i].0, &all.take(n + 1)[i].1), out@[i].1) by {
                if i < n {
                    assert(all.take(n)[i] == all.take(n + 1)[i]);
                    assert(out@[i].0 == all.take(n)[i].0);
                }
            }
        }
    }
    assert(all.take(out@.len() as int) =~= all);
    out
}

/// What a filter stage yields when iterated over its upstream's entries.
pub fn filter_entries<K, V, F: Fn(&K, &V) -> bool>(p: &F, entries: Vec<(K, V)>) -> (r: Vec<(K, V)>)
    requires
        forall|k: &K, v: &V| p.requires((k, v)),
    ensures
        filter_entries_step(*p, entries@, r@),
{
    let ghost all = entries@;
    let mut rest = reversed(entries);
    let mut out: Vec<(K, V)> = Vec::new();
    let ghost mut n: int = 0;
    while rest.len() > 0
        invariant
            forall|k: &K, v: &V| p.requires((k, v)),
            0 <= n <= all.len(),
            n + rest@.len() == all.len(),
            rest@.reverse() == all.subrange(n, all.len() as int),
            filter_entries_step(*p, all.take(n), out@),
        decreases rest.len(),
    {
        let ghost r0 = rest@;
        let ghost o0 = out@;
        let (k, v) = rest.pop().unwrap();
        proof {
            assert(r0.reverse()[0] == r0.last());
            assert(all.subrange(n, all.len() as int)[0] == all[n]);
            assert(rest@ == r0.drop_last());
            assert(r0.reverse().drop_first() =~= rest@.reverse());
            assert(all.subrange(n, all.len() as int).drop_first() =~= all.subrange(
                n + 1,
                all.len() as int,
            ));
            assert(all.take(n + 1).drop_last() =~= all.take(n));
            assert(all.take(n + 1).last() == all[n]);
        }
        let keep = p(&k, &v);
        if keep {
            out.push((k, v));
            proof {
                assert(out@.drop_last() =~= o0);
            }
        }
        proof {
            n = n + 1;
        }
    }
    assert(all.take(n) =~= all);
    out
}

/// What a filter-map stage yields when iterated over its upstream's entries.
pub fn filter_map_entries<K, V, M, F: Fn(&K, &V) -> Option<M>>(f: &F, entries: Vec<(K, V)>) -> (r:
    Vec<(K, M)>)
    requires
        forall|k: &K, v: &V| f.requires((k, v)),
    ensures
        filter_map_entries_step(*f, entries@, r@),
{
    let ghost all = entries@;
    let mut rest = reversed(entries);
    let mut out: Vec<(K, M)> = Vec::new();
    let ghost mut n: int = 0;
    while rest.len() > 0
        invariant
            forall|k: &K, v: &V| f.requires((k, v)),
            0 <= n <= all.len(),
            n + rest@.len() == all.len(),
            rest@.reverse() == all.subrange(n, all.len() as int),
            filter_map_entries_step(*f, all.take(n), out@),
        decreases rest.len(),
    {
        let ghost r0 = rest@;
        let ghost o0 = out@;
        let (k, v) = rest.pop().unwrap();
        proof {
            assert(r0.reverse()[0] == r0.last());
            assert(all.subrange(n, all.len() as int)[0] == all[n]);
            assert(rest@ == r0.drop_last());
            assert(r0.reverse().drop_first() =~= rest@.reverse());
            assert(all.subrange(n, all.len() as int).drop_first() =~= all.subrange(
                n + 1,
                all.len() as int,
            ));
            assert(all.take(n + 1).drop_last() =~= all.take(n));
            assert(all.take(n + 1).last() == all[n]);
        }
        let m = f(&k, &v);
        match m {
            Some(m) => {
                out.push((k, m));
                proof {
                    assert(out@.drop_last() =~= o0);
                }
            },
            None => {},
        }
        proof {
            n = n + 1;
        }
    }
    assert(all.take(n) =~= all);
    out
}

/// What a chain yields when iterated: the first side's entries, then the
/// second side's; a key on both sides comes twice.
pub fn chain_entries<K, V>(a: Vec<(K, V)>, b: Vec<(K, V)>) -> (r: Vec<(K, V)>)
    ensures
        r@ == a@ + b@,
{
    let mut a = a;
    let mut b = b;
    a.append(&mut b);
    a
}

/// What a zip yields when iterated over both sides' entries: each key of
/// either side once, with the pair of both sides' values there.
pub fn zip_entries<K: Ord, A, B>(a: Vec<(K, A)>, b: Vec<(K, B)>) -> (r: Loaded<K, (Option<A>, Option<B>)>)
    ensures
        obeys_cmp::<K>() ==> forall|k: K|
            #[trigger] lookup(r@, k) == zipped(lookup(map_from(a@), k), lookup(map_from(b@), k)),
{
    let ghost all_a = a@;
    let ghost all_b = b@;
    let mut acc: Loaded<K, (Option<A>, Option<B>)> = Loaded::new();
    let mut rest = reversed(a);
    let ghost mut n: int = 0;
    assert(all_a.take(0) =~= Seq::<(K, A)>::empty());
    while rest.len() > 0
        invariant
            0 <= n <= all_a.len(),
            n + rest@.len() == all_a.len(),
            rest@.reverse() == all_a.subrange(n, all_a.len() as int),
            obeys_cmp::<K>() ==> forall|k: K|
                #[trigger] lookup(acc@, k) == zipped(lookup(map_from(all_a.take(n)), k), None::<B>),
        decreases rest.len(),
    {
        let ghost r0 = rest@;
        let ghost before = acc@;
        let (k, x) = rest.pop().unwrap();
        proof {
            assert(r0.reverse()[0] == r0.last());
            assert(all_a.subrange(n, all_a.len() as int)[0] == all_a[n]);
            assert(rest@ == r0.drop_last());
            assert(r0.reverse().drop_first() =~= rest@.reverse());
            assert(all_a.subrange(n, all_a.len() as int).drop_first() =~= all_a.subrange(
                n + 1,
                all_a.len() as int,
            ));
            assert(all_a.take(n + 1).drop_last() =~= all_a.take(n));
            assert(all_a.take(n + 1).last() == (k, x));
        }
        acc.insert(k, (Some(x), None));
        proof {
            if obeys_cmp::<K>() {
                assert forall|j: K| #[trigger] lookup(acc@, j) == zipped(
                    lookup(map_from(all_a.take(n + 1)), j),
                    None::<B>,
                ) by {
                    assert(lookup(before, j) == zipped(lookup(map_from(all_a.take(n)), j), None::<B>));
                }
            }
            n = n + 1;
        }
    }
    assert(all_a.take(n) =~= all_a);
    let mut rest = reversed(b);
    let ghost mut m: int = 0;
    assert(all_b.take(0) =~= Seq::<(K, B)>::empty());
    while rest.len() > 0
        invariant
            0 <= m <= all_b.len(),
            m + rest@.len() == all_b.len(),
            rest@.reverse() == all_b.subrange(m, all_b.len() as int),
            obeys_cmp::<K>() ==> forall|k: K|
                #[trigger] lookup(acc@, k) == zipped(
                    lookup(map_from(all_a), k),
                    lookup(map_from(all_b.take(m)), k),
                ),
        decreases rest.len(),
    {
        let ghost r0 = rest@;
        let ghost before = acc@;
        let (k, y) = rest.pop().unwrap();
        proof {
            assert(r0.reverse()[0] == r0.last());
            assert(all_b.subrange(m, all_b.len() as int)[0] == all_b[m]);
            assert(rest@ == r0.drop_last());
            assert(r0.reverse().drop_first() =~= rest@.reverse());
            assert(all_b.subrange(m, all_b.len() as int).drop_first() =~= all_b.subrange(
                m + 1,
                all_b.len() as int,
            ));
            assert(all_b.take(m + 1).drop_last() =~= all_b.take(m));
            assert(all_b.take(m + 1).last() == (k, y));
        }
        let first = match acc.remove(&k) {
            Some(pair) => pair.0,
            None => None,
        };
        proof {
            if obeys_cmp::<K>() {
                assert(lookup(before, k) == zipped(
                    lookup(map_from(all_a), k),
                    lookup(map_from(all_b.take(m)), k),
                ));
                assert(first == lookup(map_from(all_a), k));
            }
        }
        acc.insert(k, (first, Some(y)));
        proof {
            if obeys_cmp::<K>() {
                assert forall|j: K| #[trigger] lookup(acc@, j) == zipped(
                    lookup(map_from(all_a), j),
                    lookup(map_from(all_b.take(m + 1)), j),
                ) by {
                    assert(lookup(before, j) == zipped(
                        lookup(map_from(all_a), j),
                        lookup(map_from(all_b.take(m)), j),
                    ));
                }
            }
            m = m + 1;
        }
    }
    assert(all_b.take(m) =~= all_b);
    acc
}

} // verus!
