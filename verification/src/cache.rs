//! Bounded memoization of computed priors, most recently used first.
//!
//! The cache is an ordered list of at most sixteen (history, prior) pairs.
//! A lookup by structural history equality promotes the matched entry to
//! the front; a miss computes the prior, inserts it at the front, and, at
//! capacity, evicts the last (least recently used) entry.  Keys are
//! pairwise distinct, so the promoted entry is pinned exactly.

use vstd::prelude::*;
use crate::history::{clone_history, hist_view, hist_wf, history_eq, History};
use crate::prior::{compute_board_priors, prior_spec, BoardTable};

verus! {

/// How many priors the cache retains.
pub const CACHE_CAPACITY: usize = 16;

/// One memoized prior and the history that produced it.
pub struct CacheEntry {
    pub key: History,
    pub priors: Vec<u64>,
}

/// The bounded most-recently-used-first store.
pub struct PriorCache {
    pub entries: Vec<CacheEntry>,
}

/// The mathematical content of one entry: the history's three sequences
/// and the stored weights.
pub open spec fn entry_view(e: CacheEntry) -> ((Seq<u32>, Seq<u32>, Seq<Seq<u64>>), Seq<u64>) {
    (hist_view(e.key), e.priors@)
}

/// The mathematical content of the cache, front first.
pub open spec fn cache_view(c: PriorCache) -> Seq<((Seq<u32>, Seq<u32>, Seq<Seq<u64>>), Seq<u64>)> {
    c.entries@.map_values(|e: CacheEntry| entry_view(e))
}

/// The prior a table and a history's content induce.
pub open spec fn prior_of(t: Seq<u32>, hv: (Seq<u32>, Seq<u32>, Seq<Seq<u64>>)) -> Seq<u64> {
    prior_spec(t, hv.0, hv.1, hv.2)
}

/// Structural soundness: bounded, well-formed keys, full-length priors,
/// pairwise distinct keys.
pub open spec fn cache_wf(c: PriorCache) -> bool {
    &&& c.entries@.len() <= CACHE_CAPACITY
    &&& forall|j: int| 0 <= j < c.entries@.len() ==> hist_wf(#[trigger] c.entries@[j].key)
    &&& forall|j: int|
        0 <= j < c.entries@.len() ==> (#[trigger] c.entries@[j].priors@.len()) == 604584
    &&& forall|j: int, k: int|
        0 <= j < c.entries@.len() && 0 <= k < c.entries@.len() && j != k ==> hist_view(
            #[trigger] c.entries@[j].key,
        ) != hist_view(#[trigger] c.entries@[k].key)
}

/// Every stored prior is the one its key induces over table `t`.
pub open spec fn cache_ok_for(c: PriorCache, t: Seq<u32>) -> bool {
    forall|j: int|
        0 <= j < c.entries@.len() ==> (#[trigger] c.entries@[j].priors@) == prior_of(
            t,
            hist_view(c.entries@[j].key),
        )
}

impl PriorCache {
    /// An empty cache.
    pub fn empty() -> (r: PriorCache)
        ensures
            cache_view(r).len() == 0,
            cache_wf(r),
            forall|t: Seq<u32>| cache_ok_for(r, t),
    {
        let c = PriorCache { entries: Vec::new() };
        proof {
            assert(cache_view(c) =~= Seq::empty());
        }
        c
    }

    /// Looks the history up, promoting a hit to the front; on a miss,
    /// computes its prior, inserts it at the front, and evicts the least
    /// recently used entry if the cache was full.
    #[verifier::loop_isolation(false)]
    pub fn lookup_or_insert(&mut self, board_table: &BoardTable, history: &History)
        requires
            cache_wf(*old(self)),
            hist_wf(*history),
            board_table.wf(),
        ensures
            cache_wf(*final(self)),
            cache_view(*final(self)).len() >= 1,
            cache_view(*final(self))[0].0 == hist_view(*history),
            final(self).entries@[0].priors@.len() == 604584,
            forall|j: int|
                0 <= j < cache_view(*old(self)).len() && (#[trigger] cache_view(*old(self))[j].0)
                    == hist_view(*history) ==> cache_view(*final(self)) == seq![
                    cache_view(*old(self))[j],
                ] + cache_view(*old(self)).subrange(0, j) + cache_view(*old(self)).subrange(
                    j + 1,
                    cache_view(*old(self)).len() as int,
                ),
            (forall|j: int|
                0 <= j < cache_view(*old(self)).len() ==> (#[trigger] cache_view(*old(self))[j].0)
                    != hist_view(*history)) ==> cache_view(*final(self)) == seq![
                (hist_view(*history), prior_of(board_table@, hist_view(*history))),
            ] + (if cache_view(*old(self)).len() == CACHE_CAPACITY {
                cache_view(*old(self)).subrange(0, CACHE_CAPACITY - 1)
            } else {
                cache_view(*old(self))
            }),
            cache_ok_for(*old(self), board_table@) ==> cache_ok_for(*final(self), board_table@)
                && final(self).entries@[0].priors@ == prior_of(board_table@, hist_view(*history)),
    {
        let ghost ov = cache_view(*old(self));
        let ghost key = hist_view(*history);
        let n: usize = self.entries.len();
        let mut j: usize = 0;
        let mut found: bool = false;
        while j < n && !found
            invariant
                j <= n,
                n == self.entries@.len(),
                *self == *old(self),
                !found ==> forall|jj: int| 0 <= jj < j ==> ov[jj].0 != key,
                found ==> j < n && ov[j as int].0 == key,
            decreases n - j, (if found {
                0int
            } else {
                1int
            }),
        {
            proof {
                assert(ov[j as int] == entry_view(self.entries@[j as int]));
            }
            if history_eq(&self.entries[j].key, history) {
                found = true;
            } else {
                j = j + 1;
            }
        }
        if found {
            if j != 0 {
                let e = self.entries.remove(j);
                self.entries.insert(0, e);
            }
            proof {
                let nv = cache_view(*self);
                assert(nv =~= seq![ov[j as int]] + ov.subrange(0, j as int) + ov.subrange(
                    j + 1,
                    ov.len() as int,
                ));
                assert forall|a: int, b: int|
                    0 <= a < self.entries@.len() && 0 <= b < self.entries@.len() && a
                        != b implies hist_view(#[trigger] self.entries@[a].key) != hist_view(
                    #[trigger] self.entries@[b].key,
                ) by {
                    let old_a = if a == 0 {
                        j as int
                    } else if a <= j {
                        a - 1
                    } else {
                        a
                    };
                    let old_b = if b == 0 {
                        j as int
                    } else if b <= j {
                        b - 1
                    } else {
                        b
                    };
                    assert(hist_view(self.entries@[a].key) == hist_view(
                        old(self).entries@[old_a].key,
                    ));
                    assert(hist_view(self.entries@[b].key) == hist_view(
                        old(self).entries@[old_b].key,
                    ));
                }
                assert forall|jj: int|
                    0 <= jj < ov.len() && (#[trigger] ov[jj].0) == key implies cache_view(*self)
                    == seq![ov[jj]] + ov.subrange(0, jj) + ov.subrange(
                    jj + 1,
                    ov.len() as int,
                ) by {
                    assert(jj == j as int);
                }
            }
        } else {
            if n == CACHE_CAPACITY {
                let _evicted = self.entries.pop();
            }
            let computed = compute_board_priors(board_table, history);
            let stored_key = clone_history(history);
            self.entries.insert(0, CacheEntry { key: stored_key, priors: computed });
            proof {
                let nv = cache_view(*self);
                if ov.len() == CACHE_CAPACITY {
                    assert(nv =~= seq![(key, prior_of(board_table@, key))] + ov.subrange(
                        0,
                        CACHE_CAPACITY - 1,
                    ));
                } else {
                    assert(nv =~= seq![(key, prior_of(board_table@, key))] + ov);
                }
                assert forall|a: int, b: int|
                    0 <= a < self.entries@.len() && 0 <= b < self.entries@.len() && a
                        != b implies hist_view(#[trigger] self.entries@[a].key) != hist_view(
                    #[trigger] self.entries@[b].key,
                ) by {
                    if a != 0 && b != 0 {
                        assert(hist_view(self.entries@[a].key) == hist_view(
                            old(self).entries@[a - 1].key,
                        ));
                        assert(hist_view(self.entries@[b].key) == hist_view(
                            old(self).entries@[b - 1].key,
                        ));
                    } else {
                        let other = if a == 0 {
                            b
                        } else {
                            a
                        };
                        assert(hist_view(self.entries@[other].key) == ov[other - 1].0);
                        assert(ov[other - 1].0 != key);
                    }
                }
            }
        }
    }

    /// Copies the front entry's stored prior.
    pub fn front_clone(&self) -> (r: Vec<u64>)
        requires
            self.entries@.len() >= 1,
        ensures
            r@ == self.entries@[0].priors@,
    {
        let src = &self.entries[0].priors;
        let mut out: Vec<u64> = Vec::new();
        let mut i: usize = 0;
        while i < src.len()
            invariant
                i <= src@.len(),
                src@ == self.entries@[0].priors@,
                out@ == src@.subrange(0, i as int),
            decreases src.len() - i,
        {
            out.push(src[i]);
            proof {
                assert(out@ =~= src@.subrange(0, i + 1));
            }
            i = i + 1;
        }
        proof {
            assert(out@ =~= src@);
        }
        out
    }

    /// Whether some entry's history equals the given one.
    pub fn contains_history(&self, history: &History) -> (r: bool)
        ensures
            r == exists|j: int|
                0 <= j < cache_view(*self).len() && (#[trigger] cache_view(*self)[j].0)
                    == hist_view(*history),
    {
        let mut j: usize = 0;
        while j < self.entries.len()
            invariant
                j <= self.entries@.len(),
                forall|jj: int|
                    0 <= jj < j ==> (#[trigger] cache_view(*self)[jj].0) != hist_view(*history),
            decreases self.entries.len() - j,
        {
            if history_eq(&self.entries[j].key, history) {
                proof {
                    assert(cache_view(*self)[j as int].0 == hist_view(*history));
                }
                return true;
            }
            j = j + 1;
        }
        false
    }
}

} // verus!
