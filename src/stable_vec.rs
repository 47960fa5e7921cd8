use vstd::prelude::*;

verus! {

/// Position of the first vacant slot, or the number of slots when all are taken.
pub open spec fn first_vacant<T>(slots: Seq<Option<T>>) -> nat
    decreases slots.len(),
{
    if slots.len() == 0 {
        0
    } else if slots[0] is None {
        0
    } else {
        1 + first_vacant(slots.drop_first())
    }
}

/// The slots after a push: the first vacant slot is filled, or a slot is appended.
pub open spec fn pushed<T>(slots: Seq<Option<T>>, item: T) -> Seq<Option<T>> {
    let p = first_vacant(slots);
    if p < slots.len() {
        slots.update(p as int, Some(item))
    } else {
        slots.push(Some(item))
    }
}

/// The slots after pushing every item of `items` in order.
pub open spec fn extended<T>(slots: Seq<Option<T>>, items: Seq<T>) -> Seq<Option<T>>
    decreases items.len(),
{
    if items.len() == 0 {
        slots
    } else {
        extended(pushed(slots, items[0]), items.drop_first())
    }
}

/// The positions handed out when pushing every item of `items` in order.
pub open spec fn extend_positions<T>(slots: Seq<Option<T>>, items: Seq<T>) -> Seq<usize>
    decreases items.len(),
{
    if items.len() == 0 {
        Seq::empty()
    } else {
        seq![first_vacant(slots) as usize] + extend_positions(
            pushed(slots, items[0]),
            items.drop_first(),
        )
    }
}

/// The live items of `slots`, in position order.
pub open spec fn live<T>(slots: Seq<Option<T>>) -> Seq<T>
    decreases slots.len(),
{
    if slots.len() == 0 {
        Seq::empty()
    } else {
        let rest = live(slots.drop_first());
        match slots[0] {
            Some(x) => seq![x] + rest,
            None => rest,
        }
    }
}

pub proof fn lemma_first_vacant<T>(slots: Seq<Option<T>>, i: int)
    requires
        0 <= i <= slots.len(),
        forall|j: int| 0 <= j < i ==> slots[j] is Some,
        i == slots.len() || slots[i] is None,
    ensures
        first_vacant(slots) == i,
    decreases i,
{
    if i > 0 {
        lemma_first_vacant(slots.drop_first(), i - 1);
    }
}

pub proof fn lemma_first_vacant_bound<T>(slots: Seq<Option<T>>)
    ensures
        first_vacant(slots) <= slots.len(),
        forall|j: int| 0 <= j < first_vacant(slots) ==> slots[j] is Some,
        first_vacant(slots) < slots.len() ==> slots[first_vacant(slots) as int] is None,
    decreases slots.len(),
{
    if slots.len() > 0 && slots[0] is Some {
        lemma_first_vacant_bound(slots.drop_first());
        assert forall|j: int| 0 <= j < first_vacant(slots) implies slots[j] is Some by {
            if j > 0 {
                assert(slots[j] == slots.drop_first()[j - 1]);
            }
        }
    }
}

pub proof fn lemma_live_append<T>(a: Seq<Option<T>>, b: Seq<Option<T>>)
    ensures
        live(a + b) == live(a) + live(b),
    decreases a.len(),
{
    if a.len() == 0 {
        assert(a + b =~= b);
    } else {
        lemma_live_append(a.drop_first(), b);
        assert((a + b).drop_first() =~= a.drop_first() + b);
        match a[0] {
            Some(x) => {
                assert(seq![x] + (live(a.drop_first()) + live(b)) =~= (seq![x] + live(
                    a.drop_first(),
                )) + live(b));
            },
            None => {},
        }
    }
}

pub proof fn lemma_live_single<T>(o: Option<T>)
    ensures
        live(seq![o]) == (match o {
            Some(x) => seq![x],
            None => Seq::<T>::empty(),
        }),
{
    assert(seq![o].drop_first() =~= Seq::<Option<T>>::empty());
    assert(live(seq![o].drop_first()) == Seq::<T>::empty());
    match o {
        Some(x) => assert(seq![x] + Seq::<T>::empty() =~= seq![x]),
        None => {},
    }
}

/// An item is live exactly when some slot holds it.
pub proof fn lemma_live_contains<T>(slots: Seq<Option<T>>, x: T)
    ensures
        live(slots).contains(x) <==> exists|j: int| 0 <= j < slots.len() && slots[j] == Some(x),
    decreases slots.len(),
{
    if slots.len() > 0 {
        let rest = slots.drop_first();
        lemma_live_contains(rest, x);
        if live(slots).contains(x) {
            if slots[0] != Some(x) {
                match slots[0] {
                    Some(y) => {
                        let i = choose|i: int| 0 <= i < live(slots).len() && live(slots)[i] == x;
                        assert(live(slots) == seq![y] + live(rest));
                        assert(live(rest)[i - 1] == x);
                    },
                    None => {},
                }
                let j = choose|j: int| 0 <= j < rest.len() && rest[j] == Some(x);
                assert(slots[j + 1] == Some(x));
            }
        }
        if exists|j: int| 0 <= j < slots.len() && slots[j] == Some(x) {
            let j = choose|j: int| 0 <= j < slots.len() && slots[j] == Some(x);
            if j == 0 {
                assert(live(slots)[0] == x);
            } else {
                assert(rest[j - 1] == Some(x));
                let i = choose|i: int| 0 <= i < live(rest).len() && live(rest)[i] == x;
                match slots[0] {
                    Some(y) => assert(live(slots)[i + 1] == x),
                    None => assert(live(slots)[i] == x),
                }
            }
        }
    }
}

/// The slot that holds the `a`-th live item.
pub open spec fn live_index<T>(slots: Seq<Option<T>>, a: int) -> int
    decreases slots.len(),
{
    if slots.len() == 0 {
        0
    } else if slots[0] is Some {
        if a == 0 {
            0
        } else {
            1 + live_index(slots.drop_first(), a - 1)
        }
    } else {
        1 + live_index(slots.drop_first(), a)
    }
}

/// The `a`-th live item stands in slot `live_index(slots, a)`, and later
/// live items stand in later slots.
pub proof fn lemma_live_index<T>(slots: Seq<Option<T>>, a: int, b: int)
    requires
        0 <= a < b < live(slots).len(),
    ensures
        0 <= live_index(slots, a) < live_index(slots, b) < slots.len(),
        slots[live_index(slots, a)] == Some(live(slots)[a]),
        slots[live_index(slots, b)] == Some(live(slots)[b]),
    decreases slots.len(),
{
    let rest = slots.drop_first();
    if slots[0] is Some {
        assert(live(slots) == seq![slots[0]->Some_0] + live(rest));
        if a == 0 {
            lemma_live_index_one(rest, b - 1);
        } else {
            lemma_live_index(rest, a - 1, b - 1);
        }
    } else {
        lemma_live_index(rest, a, b);
    }
}

proof fn lemma_live_index_one<T>(slots: Seq<Option<T>>, a: int)
    requires
        0 <= a < live(slots).len(),
    ensures
        0 <= live_index(slots, a) < slots.len(),
        slots[live_index(slots, a)] == Some(live(slots)[a]),
    decreases slots.len(),
{
    let rest = slots.drop_first();
    if slots[0] is Some {
        assert(live(slots) == seq![slots[0]->Some_0] + live(rest));
        if a > 0 {
            lemma_live_index_one(rest, a - 1);
        }
    } else {
        lemma_live_index_one(rest, a);
    }
}

/// Pushing onto slots that are all taken appends.
pub proof fn lemma_push_full<T>(slots: Seq<Option<T>>, item: T)
    requires
        forall|j: int| 0 <= j < slots.len() ==> slots[j] is Some,
    ensures
        first_vacant(slots) == slots.len(),
        pushed(slots, item) == slots.push(Some(item)),
{
    lemma_first_vacant(slots, slots.len() as int);
}

proof fn lemma_live_take_step<T>(slots: Seq<Option<T>>, i: int)
    requires
        0 <= i < slots.len(),
    ensures
        live(slots.take(i + 1)) == live(slots.take(i)) + live(seq![slots[i]]),
{
    assert(slots.take(i + 1) =~= slots.take(i) + seq![slots[i]]);
    lemma_live_append(slots.take(i), seq![slots[i]]);
}

/// An array whose positions stay valid across removals of other items:
/// removing vacates a slot, and pushing fills the first vacant slot.
#[derive(Debug, Clone)]
pub struct StableVec<T> {
    slots: Vec<Option<T>>,
}

impl<T> View for StableVec<T> {
    type V = Seq<Option<T>>;

    closed spec fn view(&self) -> Seq<Option<T>> {
        self.slots@
    }
}

impl<T> StableVec<T> {
    /// Creates an empty vector.
    pub fn new() -> (r: Self)
        ensures
            r@ == Seq::<Option<T>>::empty(),
    {
        StableVec { slots: Vec::new() }
    }

    /// Creates an empty vector with room for `capacity` slots.
    pub fn with_capacity(capacity: usize) -> (r: Self)
        ensures
            r@ == Seq::<Option<T>>::empty(),
    {
        StableVec { slots: Vec::with_capacity(capacity) }
    }

    /// The item at `index`, if that slot is taken.
    pub fn get(&self, index: usize) -> (r: Option<&T>)
        ensures
            index < self@.len() ==> r == match self@[index as int] {
                Some(x) => Some(&x),
                None => None,
            },
            index >= self@.len() ==> r is None,
    {
        if index < self.slots.len() {
            self.slots[index].as_ref()
        } else {
            None
        }
    }

    /// Number of slots, taken or vacant.
    pub fn slot_count(&self) -> (r: usize)
        ensures
            r == self@.len(),
    {
        self.slots.len()
    }

    /// The number of slots fits in a `usize`.
    pub proof fn lemma_slots_fit(&self)
        ensures
            self@.len() <= usize::MAX,
    {
        vstd::std_specs::vec::axiom_spec_len(&self.slots);
    }

    /// Stores `item` in the first vacant slot, or in a new slot at the end,
    /// and returns its position.
    pub fn push(&mut self, item: T) -> (r: usize)
        ensures
            r == first_vacant(old(self)@),
            final(self)@ == pushed(old(self)@, item),
    {
        let n = self.slots.len();
        let mut i: usize = 0;
        while i < n && self.slots[i].is_some()
            invariant
                n == self.slots@.len(),
                0 <= i <= n,
                forall|j: int| 0 <= j < i ==> self.slots@[j] is Some,
            decreases n - i,
        {
            i = i + 1;
        }
        proof {
            lemma_first_vacant(self.slots@, i as int);
        }
        if i < n {
            self.slots.set(i, Some(item));
        } else {
            self.slots.push(Some(item));
        }
        i
    }

    /// Pushes every item in order and returns the positions they were given.
    pub fn extend(&mut self, items: Vec<T>) -> (r: Vec<usize>)
        ensures
            final(self)@ == extended(old(self)@, items@),
            r@ == extend_positions(old(self)@, items@),
    {
        let mut items = items;
        let mut positions: Vec<usize> = Vec::with_capacity(items.len());
        let ghost start = self@;
        let ghost all = items@;
        let ghost mut k: int = 0;
        // Items are taken from the back, then handed out from the front.
        let mut rev: Vec<T> = Vec::new();
        while items.len() > 0
            invariant
                items@ + rev@.reverse() == all,
            decreases items.len(),
        {
            let x = items.pop().unwrap();
            proof {
                assert(items@ + (rev@.push(x)).reverse() =~= all);
            }
            rev.push(x);
        }
        assert(rev@.reverse() =~= all);
        assert(all.subrange(0, all.len() as int) =~= all);
        assert(positions@ + extend_positions(self@, all) =~= extend_positions(self@, all));
        while rev.len() > 0
            invariant
                0 <= k <= all.len(),
                rev@.reverse() == all.subrange(k, all.len() as int),
                extended(start, all) == extended(self@, all.subrange(k, all.len() as int)),
                extend_positions(start, all) == positions@ + extend_positions(
                    self@,
                    all.subrange(k, all.len() as int),
                ),
            decreases rev.len(),
        {
            let x = rev.pop().unwrap();
            let ghost rest = all.subrange(k, all.len() as int);
            proof {
                assert(rest[0] == x);
                assert(rest.drop_first() =~= all.subrange(k + 1, all.len() as int));
                assert(rev@.reverse() =~= all.subrange(k + 1, all.len() as int));
                lemma_first_vacant_bound(self@);
            }
            let ghost before = self@;
            let p = self.push(x);
            positions.push(p);
            proof {
                assert(positions@ + extend_positions(self@, rest.drop_first()) =~= (
                positions@.drop_last() + extend_positions(before, rest)));
                k = k + 1;
            }
        }
        assert(all.subrange(k, all.len() as int) =~= Seq::<T>::empty());
        assert(positions@ =~= positions@ + Seq::<usize>::empty());
        positions
    }

    /// Vacates the slot at `index`; other positions are unchanged.
    pub fn remove(&mut self, index: usize)
        ensures
            index < old(self)@.len() ==> final(self)@ == old(self)@.update(index as int, None),
            index >= old(self)@.len() ==> final(self)@ == old(self)@,
    {
        if index < self.slots.len() {
            self.slots.set(index, None);
        }
    }

    /// References to the live items, in position order.
    pub fn to_vec(&self) -> (r: Vec<&T>)
        ensures
            r@.map_values(|x: &T| *x) == live(self@),
    {
        let mut out: Vec<&T> = Vec::new();
        let mut i: usize = 0;
        while i < self.slots.len()
            invariant
                0 <= i <= self@.len(),
                out@.map_values(|x: &T| *x) == live(self@.take(i as int)),
            decreases self@.len() - i,
        {
            proof {
                lemma_live_take_step(self@, i as int);
                lemma_live_single(self@[i as int]);
            }
            match &self.slots[i] {
                Some(x) => {
                    out.push(x);
                },
                None => {},
            }
            proof {
                assert(out@.map_values(|x: &T| *x) =~= live(self@.take(i as int + 1)));
            }
            i = i + 1;
        }
        assert(self@.take(i as int) =~= self@);
        out
    }

    /// The live items, in position order.
    pub fn into_vec(self) -> (r: Vec<T>)
        ensures
            r@ == live(self@),
    {
        let ghost all = self@;
        let mut slots = self.slots;
        let mut out: Vec<T> = Vec::new();
        let mut i: usize = 0;
        while i < slots.len()
            invariant
                0 <= i <= slots@.len(),
                slots@.len() == all.len(),
                forall|j: int| i <= j < all.len() ==> slots@[j] == all[j],
                out@ == live(all.take(i as int)),
            decreases slots@.len() - i,
        {
            proof {
                lemma_live_take_step(all, i as int);
                lemma_live_single(all[i as int]);
            }
            let mut taken: Option<T> = None;
            slots.set_and_swap(i, &mut taken);
            match taken {
                Some(x) => {
                    out.push(x);
                },
                None => {},
            }
            proof {
                assert(out@ =~= live(all.take(i as int + 1)));
            }
            i = i + 1;
        }
        assert(all.take(i as int) =~= all);
        out
    }

    /// Number of live items.
    pub fn len(&self) -> (r: usize)
        ensures
            r == live(self@).len(),
    {
        let mut count: usize = 0;
        let mut i: usize = 0;
        while i < self.slots.len()
            invariant
                0 <= i <= self@.len(),
                count == live(self@.take(i as int)).len(),
                count <= i,
            decreases self@.len() - i,
        {
            proof {
                lemma_live_take_step(self@, i as int);
                lemma_live_single(self@[i as int]);
            }
            if self.slots[i].is_some() {
                count = count + 1;
            }
            i = i + 1;
        }
        assert(self@.take(i as int) =~= self@);
        count
    }

    /// Whether no slot is taken.
    pub fn is_empty(&self) -> (r: bool)
        ensures
            r == (live(self@).len() == 0),
    {
        self.len() == 0
    }
}

} // verus!
