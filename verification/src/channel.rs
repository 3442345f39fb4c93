//! The backpressured result path of a generate run.
//!
//! Hashing units hand their `(path, digest)` pairs to a single aggregator
//! through a bounded queue. A send into a full queue does not go through —
//! the producing unit suspends until the consumer drains space — so the
//! queue never holds more than its fixed capacity of pending pairs,
//! whatever the tree size. The aggregator reads exactly one pair per
//! discovered file and then stops: it never waits for more pairs than
//! exist.

use vstd::prelude::*;
use crate::digest_map::DigestMap;

verus! {

/// How many pending results the queue may hold.
pub const RESULT_CAPACITY: usize = 64;

/// A bounded first-in-first-out queue of `(path, digest)` pairs.
pub struct ResultQueue {
    capacity: usize,
    items: Vec<(Vec<u8>, u128)>,
}

impl ResultQueue {
    /// The fixed capacity.
    pub closed spec fn capacity(&self) -> nat {
        self.capacity as nat
    }

    /// The pending pairs, oldest first.
    pub closed spec fn items(&self) -> Seq<(Seq<u8>, u128)> {
        Seq::new(self.items@.len(), |i: int| (self.items@[i].0@, self.items@[i].1))
    }

    /// The backpressure bound: never more pending pairs than the capacity.
    pub open spec fn wf(&self) -> bool {
        self.items().len() <= self.capacity()
    }

    /// A fresh empty queue of the given capacity.
    pub fn new(capacity: usize) -> (q: ResultQueue)
        requires
            capacity >= 1,
        ensures
            q.wf(),
            q.capacity() == capacity,
            q.items() == Seq::<(Seq<u8>, u128)>::empty(),
    {
        let q = ResultQueue { capacity, items: Vec::new() };
        proof {
            assert(q.items() =~= Seq::<(Seq<u8>, u128)>::empty());
        }
        q
    }

    /// Accepts a pair unless the queue is full.
    ///
    /// Succeeds exactly when there is room; a producer whose send does not
    /// go through suspends and tries again once the consumer has drained,
    /// so the bound holds however many producers there are.
    pub fn try_send(&mut self, path: Vec<u8>, digest: u128) -> (accepted: bool)
        requires
            old(self).wf(),
        ensures
            final(self).wf(),
            final(self).capacity() == old(self).capacity(),
            accepted == (old(self).items().len() < old(self).capacity()),
            accepted ==> final(self).items() == old(self).items().push((path@, digest)),
            !accepted ==> final(self).items() == old(self).items(),
    {
        if self.items.len() < self.capacity {
            let ghost pre = self.items();
            self.items.push((path, digest));
            proof {
                assert(self.items() =~= pre.push((path@, digest)));
            }
            true
        } else {
            false
        }
    }

    /// Hands the oldest pending pair to the consumer, if any.
    pub fn try_recv(&mut self) -> (r: Option<(Vec<u8>, u128)>)
        requires
            old(self).wf(),
        ensures
            final(self).wf(),
            final(self).capacity() == old(self).capacity(),
            r is Some <==> old(self).items().len() > 0,
            r matches Some(p) ==> p.0@ == old(self).items()[0].0 && p.1 == old(self).items()[0].1
                && final(self).items() == old(self).items().drop_first(),
            r is None ==> final(self).items() == old(self).items(),
    {
        if self.items.len() > 0 {
            let ghost pre = self.items();
            let (path, digest) = self.items.remove(0);
            proof {
                assert(self.items() =~= pre.drop_first());
            }
            Some((path, digest))
        } else {
            None
        }
    }
}

/// One step of the result channel's history: a producer's send went
/// through or was refused, or the consumer drained a pair.
pub enum QueueEvent {
    Send,
    Recv,
}

/// How many pairs are pending after a history of events, starting from an
/// empty queue: a send takes effect only below `capacity` (a refused
/// producer suspends instead), a receive only while pairs are pending.
pub open spec fn spec_pending_after(events: Seq<QueueEvent>, capacity: nat) -> nat
    decreases events.len(),
{
    if events.len() == 0 {
        0
    } else {
        let before = spec_pending_after(events.drop_last(), capacity);
        match events.last() {
            QueueEvent::Send => if before < capacity {
                before + 1
            } else {
                before
            },
            QueueEvent::Recv => if before > 0 {
                (before - 1) as nat
            } else {
                before
            },
        }
    }
}

/// The backpressure bound over whole runs: whatever order producers and
/// the consumer interleave in, at no point does the channel hold more than
/// `capacity` pending pairs.
pub proof fn lemma_pending_bounded(events: Seq<QueueEvent>, capacity: nat)
    ensures
        spec_pending_after(events, capacity) <= capacity,
    decreases events.len(),
{
    if events.len() > 0 {
        lemma_pending_bounded(events.drop_last(), capacity);
    }
}

/// The consumer of a generate run: it collects exactly one `(path,
/// digest)` pair per discovered file into the hash mapping, and no more.
pub struct Aggregator {
    expected: usize,
    received: usize,
    map: DigestMap,
}

impl Aggregator {
    /// How many pairs the run will produce: one per discovered file.
    pub closed spec fn expected(&self) -> nat {
        self.expected as nat
    }

    /// How many pairs have been collected so far.
    pub closed spec fn received(&self) -> nat {
        self.received as nat
    }

    /// The mapping collected so far.
    pub closed spec fn as_map(&self) -> Map<Seq<u8>, u128> {
        self.map.as_map()
    }

    pub closed spec fn wf(&self) -> bool {
        self.map.wf() && self.received() <= self.expected()
    }

    /// A fresh aggregator awaiting one pair per discovered file.
    pub fn new(expected: usize) -> (a: Aggregator)
        ensures
            a.wf(),
            a.expected() == expected,
            a.received() == 0,
            a.as_map() == Map::<Seq<u8>, u128>::empty(),
    {
        Aggregator { expected, received: 0, map: DigestMap::new() }
    }

    /// Whether the consumer keeps reading: it stops — without waiting for
    /// anything further — as soon as one pair per discovered file is in.
    pub fn wants_more(&self) -> (r: bool)
        ensures
            r == (self.received() < self.expected()),
    {
        self.received < self.expected
    }

    /// Records one received pair.
    pub fn accept(&mut self, path: Vec<u8>, digest: u128)
        requires
            old(self).wf(),
            old(self).received() < old(self).expected(),
        ensures
            final(self).wf(),
            final(self).expected() == old(self).expected(),
            final(self).received() == old(self).received() + 1,
            final(self).as_map() == old(self).as_map().insert(path@, digest),
    {
        self.map.insert(path, digest);
        self.received = self.received + 1;
    }

    /// Hands the collected mapping over for export.
    pub fn into_map(self) -> (m: DigestMap)
        requires
            self.wf(),
        ensures
            m.wf(),
            m.as_map() == self.as_map(),
    {
        self.map
    }
}

} // verus!
