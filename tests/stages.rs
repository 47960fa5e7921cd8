use husky::index::MaterialTransform;
use husky::loaded::Loaded;
use husky::stage::{
    chain_event_from_a, chain_event_from_b, chain_get, filter_event, filter_get,
    filter_map_event, filter_map_get, map_event, map_get, zip_event_from_a, zip_event_from_b,
    zip_get,
};
use husky::write::Reduce;
use husky::Event;

const TEST_SIZE: u32 = 40;

fn put(tree: &mut Loaded<u32, u32>, key: u32, value: u32) -> Event<u32, u32> {
    tree.insert(key, value);
    Event::Insert { key, value }
}

fn take(tree: &mut Loaded<u32, u32>, key: u32) -> Event<u32, u32> {
    tree.remove(&key);
    Event::Remove { key }
}

fn value_at(tree: &Loaded<u32, u32>, key: u32) -> Option<u32> {
    tree.get(&key).copied()
}

fn assert_u32(tree: &Loaded<u32, u32>, pow: u32) {
    for i in 0..TEST_SIZE {
        assert_eq!(value_at(tree, i), Some(i.pow(pow)));
    }
}

fn assert_none(tree: &Loaded<u32, u32>) {
    for i in 0..TEST_SIZE {
        assert!(value_at(tree, i).is_none());
    }
}

fn square(_: &u32, v: &u32) -> u32 {
    v * v
}

fn squares(k: &u32, v: &u32) -> Vec<(u32, u32)> {
    vec![(*k, v * v)]
}

/// A transform kept in memory, with the first derived value of each key mirrored into a store.
struct Stored {
    transform: MaterialTransform<u32, u32, u32>,
    first: Loaded<u32, u32>,
}

impl Stored {
    fn new() -> Self {
        Stored { transform: MaterialTransform::new(), first: Loaded::new() }
    }

    fn take_event(&mut self, event: Event<u32, u32>, derive: fn(&u32, &u32) -> Vec<(u32, u32)>) {
        let (key, entries) = match event {
            Event::Insert { key, value } => (key, Some(derive(&key, &value))),
            Event::Remove { key } => (key, None),
        };
        let changed = self.transform.update(key, entries);
        self.refresh(changed);
    }

    fn refresh(&mut self, changed: Vec<u32>) {
        for ik in changed {
            let listed: Vec<u32> = self.transform.get(&ik).iter().map(|e| e.1).collect();
            match listed.first() {
                Some(v) => {
                    self.first.insert(ik, *v);
                }
                None => {
                    self.first.remove(&ik);
                }
            }
        }
    }

    fn rebuild(&mut self, tree: &Loaded<u32, u32>, derive: fn(&u32, &u32) -> Vec<(u32, u32)>) {
        let mut entries = Vec::new();
        for i in 0..TEST_SIZE {
            if let Some(v) = value_at(tree, i) {
                entries.push((i, derive(&i, &v)));
            }
        }
        self.transform.rebuild(&entries);
        self.first.clear();
        let keys: Vec<u32> = (0..TEST_SIZE * 3).collect();
        self.refresh(keys);
    }
}

#[test]
fn transform() {
    let mut tree: Loaded<u32, u32> = Loaded::new();
    let mut stored = Stored::new();
    let mut loaded = Stored::new();
    for i in 0..TEST_SIZE {
        let e = put(&mut tree, i, i.pow(2));
        stored.take_event(e.clone(), squares);
        loaded.take_event(e, squares);
    }
    assert_u32(&stored.first, 4);
    assert_u32(&loaded.first, 4);
    for i in 0..TEST_SIZE {
        let e = take(&mut tree, i);
        stored.take_event(e.clone(), squares);
        loaded.take_event(e, squares);
    }
    assert_none(&stored.first);
    assert_none(&loaded.first);
}

#[test]
fn transform_rebuild() {
    let mut tree: Loaded<u32, u32> = Loaded::new();
    for i in 0..TEST_SIZE {
        put(&mut tree, i, i.pow(2));
    }
    let mut stored = Stored::new();
    assert_none(&stored.first);
    stored.rebuild(&tree, squares);
    assert_u32(&stored.first, 4);
}

#[test]
fn transform_replaces() {
    let mut tree: Loaded<u32, u32> = Loaded::new();
    let mut stored = Stored::new();
    let mut loaded = Stored::new();
    for i in 0..TEST_SIZE {
        let e = put(&mut tree, i, i.pow(2));
        stored.take_event(e.clone(), squares);
        loaded.take_event(e, squares);
    }
    assert_u32(&stored.first, 4);
    assert_u32(&loaded.first, 4);
    for i in 0..TEST_SIZE {
        let e = put(&mut tree, i, i.pow(3));
        stored.take_event(e.clone(), squares);
        loaded.take_event(e, squares);
    }
    assert_u32(&stored.first, 6);
    assert_u32(&loaded.first, 6);
}

#[test]
fn transform_reindex() {
    fn rekeyed(k: &u32, v: &u32) -> Vec<(u32, u32)> {
        vec![(*k * 3, v * v)]
    }
    let mut tree: Loaded<u32, u32> = Loaded::new();
    let mut stored = Stored::new();
    let mut loaded = Stored::new();
    for i in 0..TEST_SIZE {
        let e = put(&mut tree, i, i.pow(2));
        stored.take_event(e.clone(), rekeyed);
        loaded.take_event(e, rekeyed);
    }
    for i in 0..TEST_SIZE {
        assert_eq!(value_at(&stored.first, i * 3), Some(i.pow(4)));
        assert_eq!(value_at(&loaded.first, i * 3), Some(i.pow(4)));
    }
}

fn mapped_get(tree: &Loaded<u32, u32>, i: u32) -> Option<u32> {
    map_get(&square, &i, value_at(tree, i))
}

#[test]
fn map() {
    let mut tree: Loaded<u32, u32> = Loaded::new();
    let mut stored: Loaded<u32, u32> = Loaded::new();
    let mut loaded: Loaded<u32, u32> = Loaded::new();
    for i in 0..TEST_SIZE {
        let e = map_event(&square, put(&mut tree, i, i.pow(2)));
        stored.apply(e.clone());
        loaded.apply(e);
    }
    for i in 0..TEST_SIZE {
        assert_eq!(mapped_get(&tree, i), Some(i.pow(4)));
    }
    assert_u32(&stored, 4);
    assert_u32(&loaded, 4);
    for i in 0..TEST_SIZE {
        let e = map_event(&square, take(&mut tree, i));
        stored.apply(e.clone());
        loaded.apply(e);
    }
    for i in 0..TEST_SIZE {
        assert_eq!(mapped_get(&tree, i), None);
    }
    assert_none(&stored);
    assert_none(&loaded);
}

#[test]
fn map_replaces() {
    let mut tree: Loaded<u32, u32> = Loaded::new();
    let mut stored: Loaded<u32, u32> = Loaded::new();
    let mut loaded: Loaded<u32, u32> = Loaded::new();
    for i in 0..TEST_SIZE {
        let e = map_event(&square, put(&mut tree, i, i.pow(2)));
        stored.apply(e.clone());
        loaded.apply(e);
    }
    assert_u32(&stored, 4);
    assert_u32(&loaded, 4);
    for i in 0..TEST_SIZE {
        let e = map_event(&square, put(&mut tree, i, i.pow(3)));
        stored.apply(e.clone());
        loaded.apply(e);
    }
    for i in 0..TEST_SIZE {
        assert_eq!(mapped_get(&tree, i), Some(i.pow(6)));
    }
    assert_u32(&stored, 6);
    assert_u32(&loaded, 6);
}

#[test]
fn map_rebuild() {
    let mut tree: Loaded<u32, u32> = Loaded::new();
    for i in 0..TEST_SIZE {
        put(&mut tree, i, i.pow(2));
    }
    for i in 0..TEST_SIZE {
        assert_eq!(mapped_get(&tree, i), Some(i.pow(4)));
    }
    let mut loaded: Loaded<u32, u32> = Loaded::new();
    let mut stored: Loaded<u32, u32> = Loaded::new();
    assert_none(&stored);
    let entries: Vec<(u32, u32)> = (0..TEST_SIZE).map(|i| (i, mapped_get(&tree, i).unwrap())).collect();
    loaded.rebuild(entries.clone());
    stored.rebuild(entries);
    assert_u32(&stored, 4);
    assert_u32(&loaded, 4);
}

#[test]
fn chain() {
    let mut a: Loaded<u32, u32> = Loaded::new();
    let mut b: Loaded<u32, u32> = Loaded::new();
    let mut stored: Loaded<u32, u32> = Loaded::new();
    let chained = |a: &Loaded<u32, u32>, b: &Loaded<u32, u32>, i: u32| {
        chain_get(value_at(a, i), value_at(b, i))
    };
    for i in 0..TEST_SIZE {
        stored.apply(chain_event_from_a(put(&mut a, i, i.pow(2))));
    }
    for i in 0..TEST_SIZE {
        assert_eq!(chained(&a, &b, i), Some(i.pow(2)));
    }
    assert_u32(&stored, 2);
    for i in 0..TEST_SIZE {
        stored.apply(chain_event_from_a(take(&mut a, i)));
    }
    for i in 0..TEST_SIZE {
        assert_eq!(chained(&a, &b, i), None);
    }
    assert_none(&stored);
    for i in 0..TEST_SIZE {
        let e = put(&mut b, i, i.pow(3));
        stored.apply(chain_event_from_b(e, value_at(&a, i)));
    }
    for i in 0..TEST_SIZE {
        assert_eq!(chained(&a, &b, i), Some(i.pow(3)));
    }
    assert_u32(&stored, 3);
    for i in 0..TEST_SIZE {
        stored.apply(chain_event_from_a(put(&mut a, i, i.pow(4))));
    }
    for i in 0..TEST_SIZE {
        assert_eq!(chained(&a, &b, i), Some(i.pow(4)));
    }
    assert_u32(&stored, 4);
}

#[test]
fn zip() {
    let mut a: Loaded<u32, u32> = Loaded::new();
    let mut b: Loaded<u32, u32> = Loaded::new();
    let mut stored: Loaded<u32, (Option<u32>, Option<u32>)> = Loaded::new();
    let zipped = |a: &Loaded<u32, u32>, b: &Loaded<u32, u32>, i: u32| zip_get(value_at(a, i), value_at(b, i));
    for i in 0..TEST_SIZE {
        let e = put(&mut a, i, i.pow(2));
        stored.apply(zip_event_from_a(e, value_at(&b, i)));
    }
    for i in 0..TEST_SIZE {
        assert_eq!(zipped(&a, &b, i), Some((Some(i.pow(2)), None)));
        assert_eq!(stored.get(&i).copied(), Some((Some(i.pow(2)), None)));
    }
    for i in 0..TEST_SIZE {
        let e = take(&mut a, i);
        stored.apply(zip_event_from_a(e, value_at(&b, i)));
    }
    for i in 0..TEST_SIZE {
        assert_eq!(zipped(&a, &b, i), None);
        assert!(stored.get(&i).is_none());
    }
    for i in 0..TEST_SIZE {
        let e = put(&mut b, i, i.pow(3));
        stored.apply(zip_event_from_b(e, value_at(&a, i)));
    }
    for i in 0..TEST_SIZE {
        assert_eq!(zipped(&a, &b, i), Some((None, Some(i.pow(3)))));
        assert_eq!(stored.get(&i).copied(), Some((None, Some(i.pow(3)))));
    }
    for i in 0..TEST_SIZE {
        let e = put(&mut a, i, i.pow(4));
        stored.apply(zip_event_from_a(e, value_at(&b, i)));
    }
    for i in 0..TEST_SIZE {
        assert_eq!(zipped(&a, &b, i), Some((Some(i.pow(4)), Some(i.pow(3)))));
        assert_eq!(stored.get(&i).copied(), Some((Some(i.pow(4)), Some(i.pow(3)))));
    }
}

fn even(_: &u32, v: &u32) -> bool {
    v % 2 == 0
}

#[test]
fn filter() {
    let mut tree: Loaded<u32, u32> = Loaded::new();
    let mut stored: Loaded<u32, u32> = Loaded::new();
    for i in 0..TEST_SIZE {
        stored.apply(filter_event(&even, put(&mut tree, i, i.pow(2))));
    }
    for i in 0..TEST_SIZE {
        let expected = if i % 2 == 0 { Some(i.pow(2)) } else { None };
        assert_eq!(filter_get(&even, &i, value_at(&tree, i)), expected);
        assert_eq!(value_at(&stored, i), expected);
    }
    for i in 0..TEST_SIZE {
        stored.apply(filter_event(&even, put(&mut tree, i, i.pow(3))));
    }
    for i in 0..TEST_SIZE {
        let expected = if i % 2 == 0 { Some(i.pow(3)) } else { None };
        assert_eq!(filter_get(&even, &i, value_at(&tree, i)), expected);
        assert_eq!(value_at(&stored, i), expected);
    }
    for i in 0..TEST_SIZE {
        stored.apply(filter_event(&even, take(&mut tree, i)));
    }
    for i in 0..TEST_SIZE {
        assert_eq!(filter_get(&even, &i, value_at(&tree, i)), None);
    }
    assert_none(&stored);
}

fn keep_even(_: &u32, v: &u32) -> Option<u32> {
    if v % 2 == 0 {
        Some(*v)
    } else {
        None
    }
}

#[test]
fn filter_map() {
    let mut tree: Loaded<u32, u32> = Loaded::new();
    let mut stored: Loaded<u32, u32> = Loaded::new();
    for i in 0..TEST_SIZE {
        stored.apply(filter_map_event(&keep_even, put(&mut tree, i, i.pow(2))));
    }
    for i in 0..TEST_SIZE {
        let expected = if i % 2 == 0 { Some(i.pow(2)) } else { None };
        assert_eq!(filter_map_get(&keep_even, &i, value_at(&tree, i)), expected);
        assert_eq!(value_at(&stored, i), expected);
    }
    for i in 0..TEST_SIZE {
        stored.apply(filter_map_event(&keep_even, put(&mut tree, i, i.pow(3))));
    }
    for i in 0..TEST_SIZE {
        let expected = if i % 2 == 0 { Some(i.pow(3)) } else { None };
        assert_eq!(filter_map_get(&keep_even, &i, value_at(&tree, i)), expected);
        assert_eq!(value_at(&stored, i), expected);
    }
    for i in 0..TEST_SIZE {
        stored.apply(filter_map_event(&keep_even, take(&mut tree, i)));
    }
    assert_none(&stored);
}

#[test]
fn reduce() {
    let mut reducer = Reduce::new(Loaded::<u32, u32>::new(), |a: Option<u32>, b: &u32| {
        a.unwrap_or(0) + b
    });
    for i in 0..TEST_SIZE {
        reducer.insert(i, &i.pow(2));
    }
    for i in 0..TEST_SIZE {
        assert_eq!(reducer.store().get(&i).copied(), Some(i.pow(2)));
    }
    for i in 0..TEST_SIZE {
        reducer.insert(i, &i.pow(3));
    }
    for i in 0..TEST_SIZE {
        assert_eq!(reducer.store().get(&i).copied(), Some(i.pow(2) + i.pow(3)));
    }
    for i in 0..TEST_SIZE {
        reducer.remove(&i);
    }
    for i in 0..TEST_SIZE {
        assert!(reducer.get(&i).is_none());
    }
    assert_none(reducer.store());
}
