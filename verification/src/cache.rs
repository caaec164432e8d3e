//! The response cache: the authoritative mapping from canonical URL to cache
//! entry, split into a committed index that readers consult and a FIFO queue
//! of records awaiting the persistence worker.
//!
//! Readers never see a queued record: `get` consults the committed index
//! alone, so a lookup that races a pending write observes the prior state —
//! the deliberate eventual-consistency of the design.  Exactly one worker
//! commits records, in the order they were enqueued, and each commit
//! publishes a whole entry at once: the index never holds a partial record.

use vstd::prelude::*;

use crate::bytes_util::{bytes_eq, copy_bytes};
use crate::entry::{CachedResponse, EntryModel};

verus! {

/// Model of the cache: the committed bindings in commit order, and the
/// records awaiting persistence in enqueue order.
pub struct CacheModel {
    pub index: Seq<(Seq<u8>, EntryModel)>,
    pub queue: Seq<EntryModel>,
}

/// What a reader observes for a key: the most recently committed binding.
pub open spec fn lookup(index: Seq<(Seq<u8>, EntryModel)>, key: Seq<u8>) -> Option<EntryModel>
    decreases index.len(),
{
    if index.len() == 0 {
        None
    } else if index.last().0 == key {
        Some(index.last().1)
    } else {
        lookup(index.drop_last(), key)
    }
}

/// The in-memory cache: a committed index and the persistence queue.
pub struct TurboCache {
    index: Vec<(Vec<u8>, CachedResponse)>,
    queue: Vec<CachedResponse>,
}

impl View for TurboCache {
    type V = CacheModel;

    closed spec fn view(&self) -> CacheModel {
        CacheModel {
            index: Seq::new(self.index@.len(), |i: int| (self.index@[i].0@, self.index@[i].1@)),
            queue: Seq::new(self.queue@.len(), |i: int| self.queue@[i]@),
        }
    }
}

impl TurboCache {
    /// An empty cache: nothing committed, nothing pending.
    pub fn new() -> (c: TurboCache)
        ensures
            c@.index == Seq::<(Seq<u8>, EntryModel)>::empty(),
            c@.queue == Seq::<EntryModel>::empty(),
    {
        let c = TurboCache { index: Vec::new(), queue: Vec::new() };
        proof {
            assert(c@.index =~= Seq::<(Seq<u8>, EntryModel)>::empty());
            assert(c@.queue =~= Seq::<EntryModel>::empty());
        }
        c
    }

    /// Non-blocking read of the committed index.  Pending queue records are
    /// invisible: a lookup racing a pending write for the same key observes
    /// the prior value or nothing.
    pub fn get(&self, url: &Vec<u8>) -> (r: Option<CachedResponse>)
        ensures
            match r {
                Some(e) => lookup(self@.index, url@) == Some(e@),
                None => lookup(self@.index, url@) is None,
            },
    {
        let mut i: usize = self.index.len();
        proof {
            assert(self@.index.take(i as int) =~= self@.index);
        }
        while i > 0
            invariant
                0 <= i <= self.index@.len(),
                lookup(self@.index, url@) == lookup(self@.index.take(i as int), url@),
            decreases i,
        {
            i = i - 1;
            proof {
                let pre = self@.index.take(i + 1);
                assert(pre.last() == self@.index[i as int]);
                assert(pre.drop_last() =~= self@.index.take(i as int));
            }
            if bytes_eq(&self.index[i].0, url) {
                let e = self.index[i].1.duplicate();
                return Some(e);
            }
        }
        proof {
            assert(self@.index.take(0) =~= Seq::<(Seq<u8>, EntryModel)>::empty());
        }
        None
    }

    /// Fire-and-forget write path: appends the record to the persistence
    /// queue and returns at once.  The committed index is untouched, so the
    /// calling request never waits on storage.
    pub fn append_async(&mut self, resp: CachedResponse)
        ensures
            final(self)@.queue == old(self)@.queue.push(resp@),
            final(self)@.index == old(self)@.index,
    {
        self.queue.push(resp);
        proof {
            assert(self@.queue =~= old(self)@.queue.push(self.queue@.last()@));
            assert(self@.index =~= old(self)@.index);
        }
    }

    /// One persistence-worker step: dequeues the oldest pending record and
    /// commits it under its own URL, publishing the whole entry at once.
    /// Returns false when nothing is pending.  Records are committed in FIFO
    /// order; a key enqueued twice is committed twice, the later commit
    /// shadowing the earlier.
    pub fn commit_next(&mut self) -> (r: bool)
        ensures
            old(self)@.queue.len() == 0 ==> !r && final(self)@ == old(self)@,
            old(self)@.queue.len() > 0 ==> r && final(self)@.queue == old(self)@.queue.drop_first()
                && final(self)@.index == old(self)@.index.push(
                (old(self)@.queue[0].url, old(self)@.queue[0]),
            ),
    {
        if self.queue.len() == 0 {
            proof {
                assert(self@.index =~= old(self)@.index);
                assert(self@.queue =~= old(self)@.queue);
            }
            return false;
        }
        let e = self.queue.remove(0);
        let key = copy_bytes(e.url());
        self.index.push((key, e));
        proof {
            assert(self@.queue =~= old(self)@.queue.drop_first());
            assert(self@.index =~= old(self)@.index.push(
                (old(self)@.queue[0].url, old(self)@.queue[0]),
            ));
        }
        true
    }

    /// How many records await the persistence worker.
    pub fn pending(&self) -> (r: usize)
        ensures
            r == self@.queue.len(),
    {
        self.queue.len()
    }
}

/// After the worker commits a record, a reader of that key observes exactly
/// that record: what was streamed to the client is what the cache serves.
pub proof fn lemma_commit_publishes(index: Seq<(Seq<u8>, EntryModel)>, e: EntryModel)
    ensures
        lookup(index.push((e.url, e)), e.url) == Some(e),
{
    assert(index.push((e.url, e)).last() == (e.url, e));
}

/// Committing a record for one key leaves what readers observe for every
/// other key unchanged.
pub proof fn lemma_commit_frame(index: Seq<(Seq<u8>, EntryModel)>, e: EntryModel, key: Seq<u8>)
    requires
        key != e.url,
    ensures
        lookup(index.push((e.url, e)), key) == lookup(index, key),
{
    assert(index.push((e.url, e)).last() == (e.url, e));
    assert(index.push((e.url, e)).drop_last() =~= index);
}

/// Last write wins: when two records for the same key are committed one
/// after the other, a reader observes the later one in full — one of the two
/// fetched results, never a mixture.
pub proof fn lemma_last_write_wins(
    index: Seq<(Seq<u8>, EntryModel)>,
    e1: EntryModel,
    e2: EntryModel,
)
    requires
        e1.url == e2.url,
    ensures
        lookup(index.push((e1.url, e1)).push((e2.url, e2)), e1.url) == Some(e2),
{
    lemma_commit_publishes(index.push((e1.url, e1)), e2);
}

/// Enqueueing is invisible to readers: what a lookup observes depends on the
/// committed index alone, and enqueueing leaves the index unchanged.
pub proof fn lemma_enqueue_invisible(m: CacheModel, e: EntryModel, key: Seq<u8>)
    ensures
        lookup((CacheModel { queue: m.queue.push(e), ..m }).index, key) == lookup(m.index, key),
{
}

} // verus!
