use vstd::prelude::*;

verus! {

/// What a synchronizer holds: the events it has taken from its sources, the
/// events it has emitted, and the synchronizers it takes events from.
pub struct SyncState {
    pub received: u32,
    pub outgoing: u32,
    pub sources: Seq<usize>,
}

/// Sum of the sources' emitted counts, wrapping as the 32-bit counters do.
pub open spec fn incoming_of(nodes: Seq<SyncState>, sources: Seq<usize>) -> u32
    decreases sources.len(),
{
    if sources.len() == 0 {
        0
    } else {
        incoming_of(nodes, sources.drop_last()).wrapping_add(
            nodes[sources.last() as int].outgoing,
        )
    }
}

/// Synchronizer `i` has taken every event its sources emitted.
pub open spec fn even(nodes: Seq<SyncState>, i: int) -> bool {
    nodes[i].received == incoming_of(nodes, nodes[i].sources)
}

/// Synchronizer `i` is even, and so are its sources, looking `depth` steps upstream.
pub open spec fn synced(nodes: Seq<SyncState>, i: int, depth: nat) -> bool
    decreases depth,
{
    &&& even(nodes, i)
    &&& depth > 0 ==> forall|t: int|
        0 <= t < nodes[i].sources.len() ==> synced(
            nodes,
            #[trigger] nodes[i].sources[t] as int,
            (depth - 1) as nat,
        )
}

/// Synchronizer `i` is quiescent: it and everything upstream of it are even.
/// With `n` synchronizers, a chain of sources without a repeat has fewer
/// than `n` steps, so looking `n` steps upstream covers all of them.
pub open spec fn quiescent(nodes: Seq<SyncState>, i: int) -> bool {
    synced(nodes, i, nodes.len())
}

struct SyncNode {
    received: u32,
    outgoing: u32,
    sources: Vec<usize>,
}

impl View for SyncNode {
    type V = SyncState;

    closed spec fn view(&self) -> SyncState {
        SyncState { received: self.received, outgoing: self.outgoing, sources: self.sources@ }
    }
}

/// The synchronizers of a pipeline, each named by its position. A stage
/// counts the events it emits and the events it takes from its sources, so
/// that a reader can tell when every event has gone through.
pub struct Synchronizers {
    nodes: Vec<SyncNode>,
}

impl View for Synchronizers {
    type V = Seq<SyncState>;

    closed spec fn view(&self) -> Seq<SyncState> {
        self.nodes@.map_values(|n: SyncNode| n@)
    }
}

impl Synchronizers {
    /// Every source names a synchronizer of this set.
    pub open spec fn wf(&self) -> bool {
        forall|i: int, t: int|
            0 <= i < self@.len() && 0 <= t < self@[i].sources.len() ==> #[trigger] self@[i].sources[t]
                < self@.len()
    }

    /// An empty set.
    pub fn new() -> (r: Self)
        ensures
            r.wf(),
            r@ == Seq::<SyncState>::empty(),
    {
        let r = Synchronizers { nodes: Vec::new() };
        assert(r@ =~= Seq::<SyncState>::empty());
        r
    }

    /// Number of synchronizers in the set.
    pub fn len(&self) -> (r: usize)
        ensures
            r == self@.len(),
    {
        self.nodes.len()
    }

    /// Adds a synchronizer without sources, for a store that originates events.
    pub fn add(&mut self) -> (r: usize)
        requires
            old(self).wf(),
            old(self)@.len() < usize::MAX,
        ensures
            final(self).wf(),
            r == old(self)@.len(),
            final(self)@ == old(self)@.push(
                SyncState { received: 0, outgoing: 0, sources: Seq::empty() },
            ),
    {
        let r = self.nodes.len();
        self.nodes.push(SyncNode { received: 0, outgoing: 0, sources: Vec::new() });
        assert(self@ =~= old(self)@.push(
            SyncState { received: 0, outgoing: 0, sources: Seq::empty() },
        ));
        r
    }

    /// Adds a synchronizer fed by `sources`. It counts as having taken what
    /// they have emitted so far, so joining a quiescent pipeline keeps it quiescent.
    pub fn add_from(&mut self, sources: Vec<usize>) -> (r: usize)
        requires
            old(self).wf(),
            old(self)@.len() < usize::MAX,
            forall|t: int| 0 <= t < sources@.len() ==> sources@[t] < old(self)@.len(),
        ensures
            final(self).wf(),
            r == old(self)@.len(),
            final(self)@ == old(self)@.push(
                SyncState {
                    received: incoming_of(old(self)@, sources@),
                    outgoing: 0,
                    sources: sources@,
                },
            ),
    {
        let received = self.sum_outgoing(&sources);
        let r = self.nodes.len();
        let ghost s = sources@;
        self.nodes.push(SyncNode { received, outgoing: 0, sources });
        assert(self@ =~= old(self)@.push(
            SyncState { received: incoming_of(old(self)@, s), outgoing: 0, sources: s },
        ));
        r
    }

    fn sum_outgoing(&self, sources: &Vec<usize>) -> (r: u32)
        requires
            forall|t: int| 0 <= t < sources@.len() ==> sources@[t] < self@.len(),
        ensures
            r == incoming_of(self@, sources@),
    {
        let mut sum: u32 = 0;
        let mut t: usize = 0;
        while t < sources.len()
            invariant
                0 <= t <= sources@.len(),
                forall|u: int| 0 <= u < sources@.len() ==> sources@[u] < self@.len(),
                sum == incoming_of(self@, sources@.take(t as int)),
            decreases sources@.len() - t,
        {
            let s = sources[t];
            proof {
                assert(sources@.take(t as int + 1).drop_last() =~= sources@.take(t as int));
            }
            sum = sum.wrapping_add(self.nodes[s].outgoing);
            t = t + 1;
        }
        assert(sources@.take(t as int) =~= sources@);
        sum
    }

    /// Adds `source` to the sources of `i`; used when a stage starts feeding
    /// a store after both were built.
    pub fn push_source(&mut self, i: usize, source: usize)
        requires
            old(self).wf(),
            i < old(self)@.len(),
            source < old(self)@.len(),
        ensures
            final(self).wf(),
            final(self)@ == old(self)@.update(
                i as int,
                SyncState { sources: old(self)@[i as int].sources.push(source), ..old(self)@[i as int] },
            ),
    {
        let mut node = self.nodes.remove(i);
        node.sources.push(source);
        self.nodes.insert(i, node);
        assert(self@ =~= old(self)@.update(
            i as int,
            SyncState { sources: old(self)@[i as int].sources.push(source), ..old(self)@[i as int] },
        ));
    }

    /// Counts `amount` more events emitted by `i`.
    pub fn outgoing(&mut self, i: usize, amount: u32)
        requires
            old(self).wf(),
            i < old(self)@.len(),
        ensures
            final(self).wf(),
            final(self)@ == old(self)@.update(
                i as int,
                SyncState {
                    outgoing: old(self)@[i as int].outgoing.wrapping_add(amount),
                    ..old(self)@[i as int]
                },
            ),
    {
        let mut node = self.nodes.remove(i);
        node.outgoing = node.outgoing.wrapping_add(amount);
        self.nodes.insert(i, node);
        assert(self@ =~= old(self)@.update(
            i as int,
            SyncState {
                outgoing: old(self)@[i as int].outgoing.wrapping_add(amount),
                ..old(self)@[i as int]
            },
        ));
    }

    /// Counts one more event taken by `i`, and tells whether `i` is now
    /// quiescent, so that readers waiting on it can be woken.
    pub fn received(&mut self, i: usize) -> (r: bool)
        requires
            old(self).wf(),
            i < old(self)@.len(),
        ensures
            final(self).wf(),
            final(self)@ == old(self)@.update(
                i as int,
                SyncState {
                    received: old(self)@[i as int].received.wrapping_add(1),
                    ..old(self)@[i as int]
                },
            ),
            r == quiescent(final(self)@, i as int),
    {
        let mut node = self.nodes.remove(i);
        node.received = node.received.wrapping_add(1);
        self.nodes.insert(i, node);
        assert(self@ =~= old(self)@.update(
            i as int,
            SyncState {
                received: old(self)@[i as int].received.wrapping_add(1),
                ..old(self)@[i as int]
            },
        ));
        self.is_sync(i)
    }

    /// Sets the count of taken events of `i` to what its sources have
    /// emitted; used after a rebuild that read the source directly.
    pub fn reset(&mut self, i: usize)
        requires
            old(self).wf(),
            i < old(self)@.len(),
        ensures
            final(self).wf(),
            final(self)@ == old(self)@.update(
                i as int,
                SyncState {
                    received: incoming_of(old(self)@, old(self)@[i as int].sources),
                    ..old(self)@[i as int]
                },
            ),
            even(final(self)@, i as int),
    {
        let received = self.incoming(i);
        let mut node = self.nodes.remove(i);
        node.received = received;
        self.nodes.insert(i, node);
        let ghost new = old(self)@.update(
            i as int,
            SyncState {
                received: incoming_of(old(self)@, old(self)@[i as int].sources),
                ..old(self)@[i as int]
            },
        );
        assert(self@ =~= new);
        proof {
            lemma_incoming_other_received(old(self)@, new, old(self)@[i as int].sources);
        }
    }

    /// Sum of what the sources of `i` have emitted.
    pub fn incoming(&self, i: usize) -> (r: u32)
        requires
            self.wf(),
            i < self@.len(),
        ensures
            r == incoming_of(self@, self@[i as int].sources),
    {
        assert(self@[i as int].sources == self.nodes@[i as int].sources@);
        self.sum_outgoing(&self.nodes[i].sources)
    }

    /// Whether `i` and everything upstream of it have taken every event.
    pub fn is_sync(&self, i: usize) -> (r: bool)
        requires
            self.wf(),
            i < self@.len(),
        ensures
            r == quiescent(self@, i as int),
    {
        self.synced_within(i, self.nodes.len())
    }

    fn synced_within(&self, i: usize, depth: usize) -> (r: bool)
        requires
            self.wf(),
            i < self@.len(),
        ensures
            r == synced(self@, i as int, depth as nat),
        decreases depth,
    {
        assert(self@[i as int] == self.nodes@[i as int]@);
        if self.incoming(i) != self.nodes[i].received {
            return false;
        }
        if depth == 0 {
            return true;
        }
        let n = self.nodes[i].sources.len();
        let mut t: usize = 0;
        while t < n
            invariant
                self.wf(),
                i < self@.len(),
                depth > 0,
                n == self@[i as int].sources.len(),
                0 <= t <= n,
                forall|u: int|
                    0 <= u < t ==> synced(
                        self@,
                        #[trigger] self@[i as int].sources[u] as int,
                        (depth - 1) as nat,
                    ),
            decreases n - t,
        {
            let s = self.nodes[i].sources[t];
            assert(s == self@[i as int].sources[t as int]);
            if !self.synced_within(s, depth - 1) {
                assert(!synced(self@, self@[i as int].sources[t as int] as int, (depth - 1) as nat));
                return false;
            }
            t = t + 1;
        }
        true
    }

    /// Whether every synchronizer of the set is quiescent.
    pub fn all_synced(&self) -> (r: bool)
        requires
            self.wf(),
        ensures
            r == forall|i: int| 0 <= i < self@.len() ==> #[trigger] quiescent(self@, i),
    {
        let n = self.nodes.len();
        let mut i: usize = 0;
        while i < n
            invariant
                self.wf(),
                n == self@.len(),
                0 <= i <= n,
                forall|j: int| 0 <= j < i ==> #[trigger] quiescent(self@, j),
            decreases n - i,
        {
            if !self.is_sync(i) {
                return false;
            }
            i = i + 1;
        }
        true
    }
}

/// What the sources emitted is not changed by a change to what one synchronizer took.
proof fn lemma_incoming_other_received(a: Seq<SyncState>, b: Seq<SyncState>, sources: Seq<usize>)
    requires
        a.len() == b.len(),
        forall|j: int| 0 <= j < a.len() ==> #[trigger] a[j].outgoing == b[j].outgoing,
        forall|t: int| 0 <= t < sources.len() ==> sources[t] < a.len(),
    ensures
        incoming_of(a, sources) == incoming_of(b, sources),
    decreases sources.len(),
{
    if sources.len() > 0 {
        lemma_incoming_other_received(a, b, sources.drop_last());
        assert(a[sources.last() as int].outgoing == b[sources.last() as int].outgoing);
    }
}

} // verus!
