use husky::auto_inc::AutoInc;
use husky::index::{MaterialIndex, MaterialTransform};
use husky::loaded::Loaded;
use husky::order::{chain_greater, chain_lesser, zip_greater, zip_lesser};
use husky::stage::{
    chain_entries, chain_event_from_a, chain_event_from_b, filter_entries, filter_entry,
    filter_map_entries, filter_map_entry, map_entries, map_entry, zip_entries, zip_event_from_a,
    zip_event_from_b,
};
use husky::sync::Synchronizers;
use husky::write::{FilterInserter, FilterReducer, Inserter};
use husky::{Event, StableVec};

#[test]
fn stable_vec_push_fills_first_vacant_slot() {
    let mut v: StableVec<&str> = StableVec::new();
    assert!(v.is_empty());
    assert_eq!(v.push("a"), 0);
    assert_eq!(v.push("b"), 1);
    assert_eq!(v.push("c"), 2);
    v.remove(1);
    assert_eq!(v.len(), 2);
    assert_eq!(v.get(0), Some(&"a"));
    assert_eq!(v.get(1), None);
    assert_eq!(v.get(2), Some(&"c"));
    assert_eq!(v.push("d"), 1);
    assert_eq!(v.get(2), Some(&"c"));
    assert_eq!(v.slot_count(), 3);
    assert_eq!(v.to_vec(), vec![&"a", &"d", &"c"]);
}

#[test]
fn stable_vec_remove_keeps_other_positions() {
    let mut v: StableVec<u32> = StableVec::with_capacity(4);
    for x in 10..14 {
        v.push(x);
    }
    v.remove(0);
    v.remove(2);
    v.remove(9);
    assert_eq!(v.get(1), Some(&11));
    assert_eq!(v.get(3), Some(&13));
    assert_eq!(v.len(), 2);
    assert_eq!(v.into_vec(), vec![11, 13]);
}

#[test]
fn stable_vec_extend_fills_holes_then_appends() {
    let mut v: StableVec<u32> = StableVec::new();
    v.extend(vec![1, 2, 3, 4]);
    v.remove(1);
    v.remove(3);
    let positions = v.extend(vec![7, 8, 9]);
    assert_eq!(positions, vec![1, 3, 4]);
    assert_eq!(v.into_vec(), vec![1, 7, 3, 8, 9]);
}

#[test]
fn stable_vec_empty_cases() {
    let v: StableVec<u8> = StableVec::new();
    assert_eq!(v.len(), 0);
    assert!(v.to_vec().is_empty());
    let mut w: StableVec<u8> = StableVec::new();
    assert!(w.extend(Vec::new()).is_empty());
    w.push(5);
    w.remove(0);
    assert!(w.is_empty());
    assert_eq!(w.slot_count(), 1);
}

#[test]
fn event_key_and_kind() {
    let e: Event<u32, &str> = Event::Insert { key: 4, value: "x" };
    assert_eq!(*e.key(), 4);
    assert!(e.is_insert());
    let r: Event<u32, &str> = Event::Remove { key: 9 };
    assert_eq!(*r.key(), 9);
    assert!(!r.is_insert());
}

#[test]
fn chain_second_side_yields_to_first() {
    let e = chain_event_from_b(Event::Remove { key: 1u32 }, Some(5u32));
    assert_eq!(e, Event::Insert { key: 1, value: 5 });
    let e = chain_event_from_b(Event::Insert { key: 1u32, value: 6u32 }, Some(5u32));
    assert_eq!(e, Event::Insert { key: 1, value: 5 });
    let e = chain_event_from_b(Event::Insert { key: 1u32, value: 6u32 }, None);
    assert_eq!(e, Event::Insert { key: 1, value: 6 });
    let e = chain_event_from_b::<u32, u32>(Event::Remove { key: 1 }, None);
    assert_eq!(e, Event::Remove { key: 1 });
    let e = chain_event_from_a::<u32, u32>(Event::Remove { key: 2 });
    assert_eq!(e, Event::Remove { key: 2 });
}

#[test]
fn zip_events_pair_both_sides() {
    let e = zip_event_from_a(Event::Insert { key: 1u32, value: 'a' }, Some(2u8));
    assert_eq!(e, Event::Insert { key: 1, value: (Some('a'), Some(2)) });
    let e = zip_event_from_a::<u32, char, u8>(Event::Remove { key: 1 }, None);
    assert_eq!(e, Event::Remove { key: 1 });
    let e = zip_event_from_b::<u32, char, u8>(Event::Remove { key: 1 }, Some('a'));
    assert_eq!(e, Event::Insert { key: 1, value: (Some('a'), None) });
}

#[test]
fn chain_ordered_answers_tie_to_first_side() {
    assert_eq!(chain_greater(Some((3, 'a')), Some((5, 'b'))), Some((5, 'b')));
    assert_eq!(chain_greater(Some((5, 'a')), Some((5, 'b'))), Some((5, 'a')));
    assert_eq!(chain_greater(None, Some((1, 'b'))), Some((1, 'b')));
    assert_eq!(chain_lesser(Some((3, 'a')), Some((5, 'b'))), Some((3, 'a')));
    assert_eq!(chain_lesser(Some((7, 'a')), Some((5, 'b'))), Some((5, 'b')));
    assert_eq!(chain_lesser(Some((5, 'a')), Some((5, 'b'))), Some((5, 'a')));
    assert_eq!(chain_lesser::<u8, char>(None, None), None);
}

#[test]
fn zip_ordered_answers() {
    assert_eq!(zip_greater(Some((3, 'a')), Some((5, 1u8))), Some((5, (None, Some(1)))));
    assert_eq!(zip_greater(Some((5, 'a')), Some((5, 1u8))), Some((5, (Some('a'), Some(1)))));
    assert_eq!(zip_lesser(Some((3, 'a')), Some((5, 1u8))), Some((3, (Some('a'), None))));
    assert_eq!(zip_lesser(Some((6, 'a')), Some((5, 1u8))), Some((5, (None, Some(1)))));
    assert_eq!(zip_lesser::<u8, char, u8>(None, Some((2, 9))), Some((2, (None, Some(9)))));
}

#[test]
fn synchronizer_joins_quiescent_and_tracks_counts() {
    let mut s = Synchronizers::new();
    let base = s.add();
    s.outgoing(base, 3);
    let stage = s.add_from(vec![base]);
    assert_eq!(s.incoming(stage), 3);
    assert!(s.is_sync(stage));
    s.outgoing(base, 2);
    assert!(!s.is_sync(stage));
    assert!(!s.received(stage));
    assert!(s.received(stage));
    assert!(s.all_synced());
}

#[test]
fn synchronizer_waits_on_upstream() {
    let mut s = Synchronizers::new();
    let a = s.add();
    let b = s.add();
    let mid = s.add_from(vec![a]);
    let top = s.add_from(vec![mid, b]);
    s.outgoing(a, 1);
    assert!(!s.is_sync(top));
    s.outgoing(mid, 1);
    assert!(!s.received(top));
    assert!(s.received(mid));
    assert!(s.is_sync(top));
    s.outgoing(b, 4);
    s.reset(top);
    assert!(s.is_sync(top));
    assert_eq!(s.incoming(top), 5);
}

#[test]
fn synchronizer_counts_wrap_together() {
    let mut s = Synchronizers::new();
    let a = s.add();
    let b = s.add_from(vec![a]);
    s.outgoing(a, u32::MAX);
    s.outgoing(a, 2);
    assert_eq!(s.incoming(b), 1);
    assert!(s.received(b));
}

#[test]
fn synchronizer_pipe_adds_source() {
    let mut s = Synchronizers::new();
    let target = s.add();
    let stage = s.add();
    s.push_source(target, stage);
    s.outgoing(stage, 1);
    assert!(!s.is_sync(target));
    assert!(s.received(target));
}

#[test]
fn loaded_entry_and_update() {
    let mut l: Loaded<u32, String> = Loaded::new();
    assert!(l.is_empty());
    let mut e = l.entry(1);
    assert_eq!(e.or_insert_with(|| "one".to_string()), "one");
    assert_eq!(e.or_insert_with(|| "uno".to_string()), "one");
    l.put_back(e);
    assert_eq!(l.get(&1).cloned(), Some("one".to_string()));
    let mut e = l.entry(1);
    assert_eq!(e.remove(), Some("one".to_string()));
    assert!(e.value().is_none());
    l.put_back(e);
    assert!(!l.contains_key(&1));
    l.fetch_and_update(2, |old| Some(format!("{:?}", old)));
    assert_eq!(l.get(&2).cloned(), Some("None".to_string()));
    l.fetch_and_update(2, |_| None);
    assert_eq!(l.len(), 0);
}

#[test]
fn loaded_apply_and_rebuild() {
    let mut l: Loaded<u32, u32> = Loaded::new();
    l.apply(Event::Insert { key: 1, value: 10 });
    l.apply(Event::Insert { key: 1, value: 11 });
    l.apply(Event::Remove { key: 5 });
    assert_eq!(l.get(&1).copied(), Some(11));
    l.rebuild(vec![(2, 20), (3, 30), (2, 21)]);
    assert_eq!(l.get(&1), None);
    assert_eq!(l.get(&2).copied(), Some(21));
    assert_eq!(l.len(), 2);
    l.rebuild(vec![(2, 20), (3, 30), (2, 21)]);
    assert_eq!(l.get(&2).copied(), Some(21));
    assert_eq!(l.get(&3).copied(), Some(30));
    assert_eq!(l.len(), 2);
    l.clear();
    assert!(l.is_empty());
}

#[test]
fn filter_reducer_removes_on_none() {
    let mut r = FilterReducer::new(Loaded::<u32, i32>::new(), |old: Option<i32>, m: i32| {
        let next = old.unwrap_or(0) + m;
        if next == 0 {
            None
        } else {
            Some(next)
        }
    });
    r.insert(1, 4);
    assert_eq!(r.get(&1).copied(), Some(4));
    r.insert(1, -4);
    assert_eq!(r.get(&1), None);
    r.insert(1, 2);
    assert_eq!(r.remove(&1), Some(2));
}

#[test]
fn inserters_convert_before_storing() {
    let mut i = Inserter::new(Loaded::<u32, String>::new(), |x: u8| format!("#{}", x));
    assert_eq!(i.insert(1, 7), None);
    assert_eq!(i.insert(1, 8), Some("#7".to_string()));
    assert_eq!(i.get(&1).cloned(), Some("#8".to_string()));
    let mut f = FilterInserter::new(Loaded::<u32, u32>::new(), |x: i64| {
        if x >= 0 {
            Some(x as u32)
        } else {
            None
        }
    });
    f.insert(1, 3);
    assert_eq!(f.store().get(&1).copied(), Some(3));
    assert_eq!(f.insert(1, -1), Some(3));
    assert_eq!(f.get(&1), None);
}

#[test]
fn index_lists_every_source_key_once_per_entry() {
    let mut idx: MaterialIndex<u32, char> = MaterialIndex::new();
    idx.update(1, Some(vec!['a', 'b']));
    idx.update(2, Some(vec!['b']));
    idx.update(3, Some(vec!['c', 'b']));
    assert_eq!(idx.get(&'a'), vec![&1]);
    assert_eq!(idx.get(&'b'), vec![&1, &2, &3]);
    idx.update(2, None);
    assert_eq!(idx.get(&'b'), vec![&1, &3]);
    let changed = idx.update(1, Some(vec!['c']));
    assert!(changed.contains(&'a') && changed.contains(&'b') && changed.contains(&'c'));
    assert!(idx.get(&'a').is_empty());
    assert_eq!(idx.get(&'b'), vec![&3]);
    assert_eq!(idx.get(&'c'), vec![&3, &1]);
    idx.update(4, Some(vec!['b']));
    assert_eq!(idx.get(&'b'), vec![&4, &3]);
    idx.update(9, Some(Vec::new()));
    assert!(idx.get(&'z').is_empty());
}

#[test]
fn index_rebuild_twice_matches_once() {
    let entries = vec![(1u32, vec!['x']), (2, vec!['x', 'y'])];
    let mut once: MaterialIndex<u32, char> = MaterialIndex::new();
    once.update(5, Some(vec!['q']));
    once.rebuild(&entries);
    let mut twice: MaterialIndex<u32, char> = MaterialIndex::new();
    twice.rebuild(&entries);
    twice.rebuild(&entries);
    for ik in ['x', 'y', 'q'] {
        assert_eq!(once.get(&ik), twice.get(&ik));
    }
    assert_eq!(once.get(&'x'), vec![&1, &2]);
    assert!(once.get(&'q').is_empty());
}

#[test]
fn transform_keeps_values_beside_keys() {
    let mut t: MaterialTransform<u32, u32, String> = MaterialTransform::new();
    t.update(1, Some(vec![(10, "a".to_string()), (20, "b".to_string())]));
    t.update(2, Some(vec![(10, "c".to_string())]));
    assert_eq!(t.get(&10), vec![&(1, "a".to_string()), &(2, "c".to_string())]);
    t.update(1, Some(vec![(20, "d".to_string())]));
    assert_eq!(t.get(&10), vec![&(2, "c".to_string())]);
    assert_eq!(t.get(&20), vec![&(1, "d".to_string())]);
    t.clear();
    assert!(t.get(&20).is_empty());
}

#[test]
fn auto_inc_starts_at_one() {
    assert_eq!(<u8 as AutoInc>::first(), 1);
    assert_eq!(<u64 as AutoInc>::first(), 1);
    assert_eq!(AutoInc::next(&41u32), 42);
    assert_eq!(AutoInc::next(&254u8), 255);
    assert_eq!(AutoInc::next(&0usize), 1);
    assert_eq!(AutoInc::next(&9u16), 10);
    assert_eq!(AutoInc::next(&9u128), 10);
}

#[test]
fn derived_views_iterate_their_upstream() {
    let entries = vec![(1u32, 10u32), (2, 15), (3, 20)];
    let doubled = map_entries(&|_: &u32, v: &u32| v * 2, entries.clone());
    assert_eq!(doubled, vec![(1, 20), (2, 30), (3, 40)]);
    let even = filter_entries(&|_: &u32, v: &u32| v % 2 == 0, entries.clone());
    assert_eq!(even, vec![(1, 10), (3, 20)]);
    let halves = filter_map_entries(
        &|k: &u32, v: &u32| if *k != 2 { Some(v / 2) } else { None },
        entries.clone(),
    );
    assert_eq!(halves, vec![(1, 5), (3, 10)]);
    let both = chain_entries(vec![(1u32, 'a')], vec![(1, 'b'), (2, 'c')]);
    assert_eq!(both, vec![(1, 'a'), (1, 'b'), (2, 'c')]);
    assert!(map_entries(&|_: &u32, v: &u32| *v, Vec::new()).is_empty());
}

#[test]
fn zip_mirror_follows_both_sides() {
    let mut a: Loaded<u32, u32> = Loaded::new();
    let mut b: Loaded<u32, u32> = Loaded::new();
    let mut mirror: Loaded<u32, (Option<u32>, Option<u32>)> = Loaded::new();
    a.insert(1, 1);
    mirror.apply(zip_event_from_a(Event::Insert { key: 1, value: 1 }, b.get(&1).copied()));
    b.insert(1, 2);
    mirror.apply(zip_event_from_b(Event::Insert { key: 1, value: 2 }, a.get(&1).copied()));
    assert_eq!(mirror.get(&1).copied(), Some((Some(1), Some(2))));
    a.remove(&1);
    mirror.apply(zip_event_from_a(Event::Remove { key: 1 }, b.get(&1).copied()));
    assert_eq!(mirror.get(&1).copied(), Some((None, Some(2))));
    b.remove(&1);
    mirror.apply(zip_event_from_b(Event::Remove { key: 1 }, a.get(&1).copied()));
    assert!(mirror.is_empty());
}

#[test]
fn ordered_answers_pass_through_stages() {
    let upstream = Some((4u32, 9u32));
    assert_eq!(map_entry(&|_: &u32, v: &u32| v + 1, upstream), Some((4, 10)));
    assert_eq!(map_entry(&|_: &u32, v: &u32| v + 1, None), None);
    assert_eq!(filter_entry(&|_: &u32, v: &u32| *v > 5, upstream), Some((4, 9)));
    assert_eq!(filter_entry(&|_: &u32, v: &u32| *v > 10, upstream), None);
    let keyed = |k: &u32, v: &u32| if *k == 4 { Some(k * v) } else { None };
    assert_eq!(filter_map_entry(&keyed, upstream), Some((4, 36)));
    assert_eq!(filter_map_entry(&keyed, Some((5, 9))), None);
}

#[test]
fn index_values_skip_keys_the_source_lacks() {
    let mut source: Loaded<u32, &str> = Loaded::new();
    source.insert(1, "one");
    source.insert(3, "three");
    let mut idx: MaterialIndex<u32, char> = MaterialIndex::new();
    idx.update(1, Some(vec!['x']));
    idx.update(2, Some(vec!['x']));
    idx.update(3, Some(vec!['x']));
    assert_eq!(idx.get_values(&'x', &source), Some(vec![&"one", &"three"]));
    assert_eq!(idx.get_values(&'y', &source), None);
}

#[test]
fn zip_iterates_union_of_keys() {
    let z = zip_entries(vec![(1u32, 'a'), (2, 'b')], vec![(2u32, 20u8), (3, 30)]);
    assert_eq!(z.len(), 3);
    assert_eq!(z.get(&1).copied(), Some((Some('a'), None)));
    assert_eq!(z.get(&2).copied(), Some((Some('b'), Some(20))));
    assert_eq!(z.get(&3).copied(), Some((None, Some(30))));
    let empty = zip_entries::<u32, char, u8>(Vec::new(), Vec::new());
    assert!(empty.is_empty());
}

#[test]
fn reducers_return_the_prior_value() {
    let mut r = husky::write::Reducer::new(Loaded::<u32, u32>::new(), |old: Option<u32>, m: u32| {
        old.unwrap_or(0) + m
    });
    assert_eq!(r.insert(1, 10), None);
    assert_eq!(r.insert(1, 5), Some(10));
    assert_eq!(r.get(&1).copied(), Some(15));
    let mut f = FilterReducer::new(Loaded::<u32, i32>::new(), |old: Option<i32>, m: i32| {
        if m < 0 {
            None
        } else {
            Some(old.unwrap_or(0) + m)
        }
    });
    assert_eq!(f.insert(2, 3), None);
    assert_eq!(f.insert(2, -1), Some(3));
    assert_eq!(f.get(&2), None);
}

#[test]
fn inserter_update_applies_user_function_then_conversion() {
    let mut i = Inserter::new(Loaded::<u32, String>::new(), |x: u8| format!("#{}", x));
    assert_eq!(i.fetch_and_update(1, |old| if old.is_none() { Some(7u8) } else { None }), None);
    assert_eq!(i.get(&1).cloned(), Some("#7".to_string()));
    let prior = i.fetch_and_update(1, |old| old.map(|s| s.len() as u8));
    assert_eq!(prior, Some("#7".to_string()));
    assert_eq!(i.get(&1).cloned(), Some("#2".to_string()));
    assert_eq!(i.fetch_and_update(1, |_| None), Some("#2".to_string()));
    assert_eq!(i.get(&1), None);
}

#[test]
fn index_update_names_each_touched_key_once() {
    let mut idx: MaterialIndex<u32, char> = MaterialIndex::new();
    let mut first = idx.update(1, Some(vec!['a', 'a', 'b']));
    first.sort();
    assert_eq!(first, vec!['a', 'b']);
    let mut second = idx.update(1, Some(vec!['b', 'c']));
    second.sort();
    assert_eq!(second, vec!['a', 'b', 'c']);
    idx.update(2, Some(vec!['z']));
    let mut third = idx.update(1, None);
    third.sort();
    assert_eq!(third, vec!['b', 'c']);
}

#[test]
fn index_events_remove_only_where_no_list_is_left() {
    let mut source: Loaded<u32, &str> = Loaded::new();
    source.insert(1, "one");
    let mut idx: MaterialIndex<u32, char> = MaterialIndex::new();
    idx.update(1, Some(vec!['x']));
    idx.update(2, Some(vec!['x']));
    let changed = idx.update(1, Some(vec!['y']));
    let events = idx.events(changed.clone(), &source);
    assert_eq!(events.len(), changed.len());
    for (ik, e) in changed.iter().zip(events.iter()) {
        match *ik {
            'x' => assert_eq!(e, &Event::Insert { key: 'x', value: vec![] }),
            'y' => assert_eq!(e, &Event::Insert { key: 'y', value: vec![&"one"] }),
            _ => panic!("unexpected key"),
        }
    }
    let changed = idx.update(2, None);
    assert_eq!(idx.events(changed, &source), vec![Event::Remove { key: 'x' }]);
}

#[test]
fn transform_events_carry_derived_values() {
    let mut t: MaterialTransform<u32, u32, String> = MaterialTransform::new();
    let changed = t.update(1, Some(vec![(10, "a".to_string())]));
    let events = t.events(changed);
    assert_eq!(events, vec![Event::Insert { key: 10, value: vec![&"a".to_string()] }]);
    let changed = t.update(1, None);
    assert_eq!(t.events(changed), vec![Event::Remove { key: 10 }]);
}
