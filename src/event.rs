use vstd::prelude::*;

verus! {

/// A change that happened at one key of a view.
#[derive(Debug, Clone, PartialEq, Eq)]
pub enum Event<K, V> {
    /// `value` is now stored at `key`.
    Insert { key: K, value: V },
    /// Nothing is stored at `key` any more.
    Remove { key: K },
}

impl<K, V> Event<K, V> {
    pub open spec fn key_of(self) -> K {
        match self {
            Event::Insert { key, .. } => key,
            Event::Remove { key } => key,
        }
    }

    /// The key that this event is about.
    pub fn key(&self) -> (r: &K)
        ensures
            *r == self.key_of(),
    {
        match self {
            Event::Insert { key, .. } => key,
            Event::Remove { key } => key,
        }
    }

    /// Whether this event stores a value.
    pub fn is_insert(&self) -> (r: bool)
        ensures
            r == (self is Insert),
    {
        match self {
            Event::Insert { .. } => true,
            Event::Remove { .. } => false,
        }
    }
}

/// The contents of a store after it has taken `event`.
pub open spec fn applied<K, V>(m: Map<K, V>, event: Event<K, V>) -> Map<K, V> {
    match event {
        Event::Insert { key, value } => m.insert(key, value),
        Event::Remove { key } => m.remove(key),
    }
}

/// A store's contents after it has taken every event of `events`, in order.
pub open spec fn applied_all<K, V>(m: Map<K, V>, events: Seq<Event<K, V>>) -> Map<K, V>
    decreases events.len(),
{
    if events.len() == 0 {
        m
    } else {
        applied_all(applied(m, events[0]), events.drop_first())
    }
}

} // verus!
