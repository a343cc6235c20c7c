//! The block timestamp cache: block hash to Unix timestamp.
//!
//! The cache itself is pure state; fetching timestamps over the network
//! stays with the caller, who bulk-feeds results in through
//! [`TimestampCache::prepare_cache`] and falls back to a single fetch plus
//! [`TimestampCache::insert`] on a miss.

use crate::state::BlockHash;
use vstd::prelude::*;

verus! {

/// The timestamp recorded for a hash, if any; the first entry wins.
pub open spec fn spec_cached(s: Seq<(BlockHash, u64)>, h: BlockHash) -> Option<u64>
    decreases s.len(),
{
    if s.len() == 0 {
        None
    } else if s[0].0 == h {
        Some(s[0].1)
    } else {
        spec_cached(s.drop_first(), h)
    }
}

/// What a hash reads after a batch of results is folded in, left to
/// right: the last write to a hash wins, and untouched hashes keep their
/// old reading.
pub open spec fn spec_after_fill(
    s: Seq<(BlockHash, u64)>,
    fetched: Seq<(BlockHash, u64)>,
    h: BlockHash,
) -> Option<u64>
    decreases fetched.len(),
{
    if fetched.len() == 0 {
        spec_cached(s, h)
    } else if fetched.last().0 == h {
        Some(fetched.last().1)
    } else {
        spec_after_fill(s, fetched.drop_last(), h)
    }
}

/// A map from block hash to the block's Unix timestamp.
#[derive(Clone, Debug, PartialEq, Eq)]
pub struct TimestampCache {
    pub entries: Vec<(BlockHash, u64)>,
}

impl TimestampCache {
    /// Keys are pairwise distinct.
    pub open spec fn wf(self) -> bool {
        forall|i: int, j: int|
            0 <= i < j < self.entries@.len() ==> (#[trigger] self.entries@[i]).0
                != (#[trigger] self.entries@[j]).0
    }

    /// An empty cache.
    pub fn new() -> (r: TimestampCache)
        ensures
            r.wf(),
            forall|h: BlockHash| spec_cached(r.entries@, h) is None,
    {
        let r = TimestampCache { entries: Vec::new() };
        proof {
            assert(r.entries@.len() == 0);
        }
        r
    }

    /// The cached timestamp of a block, if known.
    pub fn block_timestamp(&self, hash: BlockHash) -> (r: Option<u64>)
        ensures
            r == spec_cached(self.entries@, hash),
    {
        let mut i: usize = 0;
        proof {
            assert(self.entries@.skip(0) =~= self.entries@);
        }
        while i < self.entries.len()
            invariant
                i <= self.entries@.len(),
                spec_cached(self.entries@, hash) == spec_cached(
                    self.entries@.skip(i as int), hash),
            decreases self.entries@.len() - i,
        {
            proof {
                assert(self.entries@.skip(i as int).len() > 0);
                assert(self.entries@.skip(i as int)[0] == self.entries@[i as int]);
                assert(self.entries@.skip(i as int).drop_first() =~= self.entries@.skip(i + 1));
            }
            if self.entries[i].0 == hash {
                return Some(self.entries[i].1);
            }
            i = i + 1;
        }
        None
    }

    /// Records one block's timestamp; a later reading replaces an
    /// earlier one, every other hash keeps its reading.
    pub fn insert(&mut self, hash: BlockHash, timestamp: u64)
        requires
            old(self).wf(),
        ensures
            final(self).wf(),
            spec_cached(final(self).entries@, hash) == Some(timestamp),
            forall|h: BlockHash|
                h != hash ==> spec_cached(final(self).entries@, h) == spec_cached(
                    old(self).entries@, h),
    {
        let ghost s0 = self.entries@;
        let mut i: usize = 0;
        while i < self.entries.len()
            invariant
                s0 == self.entries@,
                s0 == old(self).entries@,
                old(self).wf(),
                i <= s0.len(),
                forall|j: int| 0 <= j < i ==> (#[trigger] s0[j]).0 != hash,
            decreases s0.len() - i,
        {
            if self.entries[i].0 == hash {
                self.entries.set(i, (hash, timestamp));
                proof {
                    lemma_cached_first_match(self.entries@, hash, i as int);
                    assert forall|h: BlockHash| h != hash implies spec_cached(
                        self.entries@, h) == spec_cached(s0, h) by {
                        lemma_cached_update_other(s0, i as int, (hash, timestamp), h);
                    }
                    assert forall|a: int, b: int|
                        0 <= a < b < self.entries@.len() implies (#[trigger] self.entries@[a]).0
                        != (#[trigger] self.entries@[b]).0 by {
                        assert(s0[a].0 != s0[b].0);
                    }
                }
                return;
            }
            i = i + 1;
        }
        self.entries.push((hash, timestamp));
        proof {
            lemma_cached_first_match(self.entries@, hash, s0.len() as int);
            assert forall|h: BlockHash| h != hash implies spec_cached(
                self.entries@, h) == spec_cached(s0, h) by {
                lemma_cached_push_other(s0, (hash, timestamp), h);
            }
        }
    }

    /// Feeds a bulk of fetched timestamps into the cache in one go.
    pub fn prepare_cache(&mut self, fetched: &Vec<(BlockHash, u64)>)
        requires
            old(self).wf(),
        ensures
            final(self).wf(),
            forall|h: BlockHash| #[trigger] spec_cached(final(self).entries@, h)
                == spec_after_fill(old(self).entries@, fetched@, h),
    {
        let ghost s0 = self.entries@;
        let mut i: usize = 0;
        proof {
            assert(fetched@.take(0) =~= Seq::<(BlockHash, u64)>::empty());
        }
        while i < fetched.len()
            invariant
                self.wf(),
                i <= fetched@.len(),
                forall|h: BlockHash| #[trigger] spec_cached(self.entries@, h) == spec_after_fill(
                    s0, fetched@.take(i as int), h),
            decreases fetched@.len() - i,
        {
            proof {
                assert(fetched@.take(i + 1).drop_last() =~= fetched@.take(i as int));
                assert(fetched@.take(i + 1).last() == fetched@[i as int]);
            }
            let (h, ts) = fetched[i];
            self.insert(h, ts);
            i = i + 1;
        }
        proof {
            assert(fetched@.take(fetched@.len() as int) =~= fetched@);
        }
    }
}

/// The first matching entry decides the cached reading.
proof fn lemma_cached_first_match(s: Seq<(BlockHash, u64)>, h: BlockHash, i: int)
    requires
        0 <= i < s.len(),
        s[i].0 == h,
        forall|j: int| 0 <= j < i ==> (#[trigger] s[j]).0 != h,
    ensures
        spec_cached(s, h) == Some(s[i].1),
    decreases i,
{
    if i > 0 {
        lemma_cached_first_match(s.drop_first(), h, i - 1);
    }
}

/// Overwriting an entry leaves other hashes' readings alone.
proof fn lemma_cached_update_other(
    s: Seq<(BlockHash, u64)>,
    i: int,
    e: (BlockHash, u64),
    h: BlockHash,
)
    requires
        0 <= i < s.len(),
        e.0 == s[i].0,
        h != e.0,
    ensures
        spec_cached(s.update(i, e), h) == spec_cached(s, h),
    decreases i,
{
    if i == 0 {
        assert(s.update(0, e).drop_first() =~= s.drop_first());
    } else {
        assert(s.update(i, e).drop_first() =~= s.drop_first().update(i - 1, e));
        lemma_cached_update_other(s.drop_first(), i - 1, e, h);
    }
}

/// Appending an entry leaves other hashes' readings alone.
proof fn lemma_cached_push_other(s: Seq<(BlockHash, u64)>, e: (BlockHash, u64), h: BlockHash)
    requires
        h != e.0,
    ensures
        spec_cached(s.push(e), h) == spec_cached(s, h),
    decreases s.len(),
{
    if s.len() == 0 {
        assert(s.push(e)[0] == e);
        assert(s.push(e).drop_first() =~= Seq::<(BlockHash, u64)>::empty());
        assert(spec_cached(s.push(e), h) == spec_cached(
            Seq::<(BlockHash, u64)>::empty(), h));
    } else {
        assert(s.push(e)[0] == s[0]);
        assert(s.push(e).drop_first() =~= s.drop_first().push(e));
        lemma_cached_push_other(s.drop_first(), e, h);
        if s[0].0 == h {
        } else {
            assert(spec_cached(s.push(e), h) == spec_cached(s.drop_first().push(e), h));
        }
    }
}

} // verus!
