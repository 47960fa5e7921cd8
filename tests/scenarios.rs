use husky::index::MaterialIndex;
use husky::loaded::Loaded;
use husky::stage::{chain_get, filter_event, filter_get, map_event, map_get, zip_get};
use husky::write::Reducer;
use husky::Event;

#[test]
fn map_doubles_every_value() {
    let mut tree: Loaded<i32, i32> = Loaded::new();
    let double = |_: &i32, v: &i32| v * 2;
    let mut mirror: Loaded<i32, i32> = Loaded::new();
    for i in 0..100 {
        tree.insert(i, i);
        mirror.apply(map_event(&double, Event::Insert { key: i, value: i }));
    }
    for k in 0..100 {
        let v = map_get(&double, &k, tree.get(&k).copied()).unwrap();
        assert_eq!(v, 2 * k);
        assert_eq!(mirror.get(&k).copied(), Some(2 * k));
    }
}

#[test]
fn chain_prefers_first_side() {
    let mut a: Loaded<String, String> = Loaded::new();
    let mut b: Loaded<String, String> = Loaded::new();
    let key = "key".to_string();
    b.insert(key.clone(), "b".to_string());
    assert_eq!(chain_get(a.get(&key).cloned(), b.get(&key).cloned()), Some("b".to_string()));
    a.insert(key.clone(), "a".to_string());
    assert_eq!(chain_get(a.get(&key).cloned(), b.get(&key).cloned()), Some("a".to_string()));
}

#[test]
fn zip_with_own_map() {
    let mut tree: Loaded<i32, i32> = Loaded::new();
    tree.insert(3, 3);
    let double = |_: &i32, v: &i32| v * 2;
    let a = tree.get(&3).copied();
    let b = map_get(&double, &3, tree.get(&3).copied());
    assert_eq!(zip_get(a, b), Some((Some(3), Some(6))));
    assert_eq!(zip_get::<i32, i32>(tree.get(&4).copied(), None), None);
}

#[test]
fn filter_hides_then_shows() {
    let mut tree: Loaded<String, i32> = Loaded::new();
    let mut mirror: Loaded<String, i32> = Loaded::new();
    let above_two = |_: &String, v: &i32| *v > 2;
    let k = "k".to_string();
    tree.insert(k.clone(), 2);
    mirror.apply(filter_event(&above_two, Event::Insert { key: k.clone(), value: 2 }));
    assert_eq!(filter_get(&above_two, &k, tree.get(&k).copied()), None);
    assert_eq!(mirror.get(&k), None);
    tree.insert(k.clone(), 5);
    mirror.apply(filter_event(&above_two, Event::Insert { key: k.clone(), value: 5 }));
    assert_eq!(filter_get(&above_two, &k, tree.get(&k).copied()), Some(5));
    assert_eq!(mirror.get(&k).copied(), Some(5));
}

#[test]
fn reducer_sums_inserts() {
    let mut r = Reducer::new(Loaded::<String, i32>::new(), |old: Option<i32>, m: i32| {
        old.unwrap_or(0) + m
    });
    r.insert("k".to_string(), 10);
    r.insert("k".to_string(), 5);
    assert_eq!(r.get(&"k".to_string()).copied(), Some(15));
    assert_eq!(r.store().get(&"k".to_string()).copied(), Some(15));
}

#[test]
fn index_by_key_text() {
    let mut tree: Loaded<i32, String> = Loaded::new();
    let mut idx: MaterialIndex<i32, String> = MaterialIndex::new();
    tree.insert(7, "v".to_string());
    let changed = idx.update(7, Some(vec![7.to_string()]));
    assert_eq!(changed, vec!["7".to_string()]);
    let values = idx.get_values(&"7".to_string(), &tree);
    assert_eq!(values, Some(vec![&"v".to_string()]));
    tree.remove(&7);
    assert_eq!(idx.get_values(&"7".to_string(), &tree), None);
    idx.update(7, None);
    assert_eq!(idx.get_values(&"7".to_string(), &tree), None);
    assert!(idx.get(&"7".to_string()).is_empty());
}
