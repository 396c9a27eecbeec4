//! Bounded cache of (block, state) snapshots.
//!
//! States are large, so the cache's capacity is small and fixed regardless
//! of chain length; once full, the least recently inserted entry is evicted.

use vstd::prelude::*;
use crate::state::State;

verus! {

/// A block's root and slot paired with the state immediately after applying
/// the block.
pub struct Snapshot {
    pub block_root: u64,
    pub slot: u64,
    pub state: State,
}

/// Whether a run of snapshots holds an entry for a root.
pub open spec fn snapshots_contain(s: Seq<Snapshot>, root: u64) -> bool {
    exists|i: int| 0 <= i < s.len() && s[i].block_root == root
}

/// Fixed-capacity mapping from block root to snapshot, in insertion order
/// (oldest first).
pub struct SnapshotCache {
    pub capacity: usize,
    pub snapshots: Vec<Snapshot>,
}

impl SnapshotCache {
    /// Bounded, and holding at most one entry per root.
    pub open spec fn wf(self) -> bool {
        &&& self.capacity >= 1
    &&& self.snapshots@.len() <= self.capacity
    &&& forall|i: int, j: int|
        0 <= i < j < self.snapshots@.len() ==> self.snapshots@[i].block_root
            != self.snapshots@[j].block_root
    }

    /// An empty cache of the given capacity.
    pub fn new(capacity: usize) -> (r: Self)
        requires
            capacity >= 1,
        ensures
            r.wf(),
            r.capacity == capacity,
            r.snapshots@.len() == 0,
    {
        SnapshotCache { capacity, snapshots: Vec::new() }
    }

    /// Index of the entry for a root, if one is cached.
    pub fn position(&self, root: u64) -> (r: Option<usize>)
        ensures
            match r {
                Some(i) => i < self.snapshots@.len() && self.snapshots@[i as int].block_root
                    == root,
                None => !snapshots_contain(self.snapshots@, root),
            },
    {
        let mut i: usize = 0;
        while i < self.snapshots.len()
            invariant
                0 <= i <= self.snapshots@.len(),
                forall|k: int| 0 <= k < i ==> self.snapshots@[k].block_root != root,
            decreases self.snapshots@.len() - i,
        {
            if self.snapshots[i].block_root == root {
                return Some(i);
            }
            i = i + 1;
        }
        None
    }

    /// Borrow the cached snapshot for a root, if present.
    pub fn get(&self, root: u64) -> (r: Option<&Snapshot>)
        ensures
            match r {
                Some(s) => snapshots_contain(self.snapshots@, root) && s.block_root == root
                    && exists|i: int|
                    0 <= i < self.snapshots@.len() && self.snapshots@[i] == *s,
                None => !snapshots_contain(self.snapshots@, root),
            },
    {
        match self.position(root) {
            Some(i) => Some(&self.snapshots[i]),
            None => None,
        }
    }

    /// Insert a snapshot: an entry with the same root is replaced in place;
    /// otherwise the snapshot is appended, evicting the oldest entry if the
    /// cache is full.
    pub fn insert(&mut self, s: Snapshot)
        requires
            old(self).wf(),
        ensures
            final(self).wf(),
            final(self).capacity == old(self).capacity,
            snapshots_contain(final(self).snapshots@, s.block_root),
            final(self).snapshots@ == if snapshots_contain(old(self).snapshots@, s.block_root) {
                old(self).snapshots@.update(spec_position(old(self).snapshots@, s.block_root), s)
            } else if old(self).snapshots@.len() < old(self).capacity {
                old(self).snapshots@.push(s)
            } else {
                old(self).snapshots@.drop_first().push(s)
            },
    {
        let ghost before = self.snapshots@;
        match self.position(s.block_root) {
            Some(i) => {
                proof {
                    lemma_spec_position(before, s.block_root, i as int);
                }
                self.snapshots.set(i, s);
                proof {
                    assert(self.snapshots@[i as int].block_root == s.block_root);
                }
            },
            None => {
                if self.snapshots.len() >= self.capacity {
                    self.snapshots.remove(0);
                    proof {
                        assert(self.snapshots@ =~= before.drop_first());
                    }
                }
                let ghost mid = self.snapshots@;
                self.snapshots.push(s);
                proof {
                    assert(self.snapshots@[self.snapshots@.len() - 1].block_root == s.block_root);
                    assert(forall|a: int, b: int|
                        0 <= a < b < self.snapshots@.len() ==> self.snapshots@[a].block_root
                            != self.snapshots@[b].block_root) by {
                        assert(forall|a: int|
                            0 <= a < mid.len() ==> !(mid[a].block_root == s.block_root));
                    }
                }
            },
        }
    }
}

/// Index of the entry for a root (meaningful when one exists and roots are
/// unique).
pub open spec fn spec_position(s: Seq<Snapshot>, root: u64) -> int {
    choose|i: int| 0 <= i < s.len() && s[i].block_root == root
}

pub proof fn lemma_spec_position(s: Seq<Snapshot>, root: u64, i: int)
    requires
        0 <= i < s.len(),
        s[i].block_root == root,
        forall|a: int, b: int| 0 <= a < b < s.len() ==> s[a].block_root != s[b].block_root,
    ensures
        spec_position(s, root) == i,
{
    let j = spec_position(s, root);
    assert(0 <= j < s.len() && s[j].block_root == root);
    if i < j {
        assert(s[i].block_root != s[j].block_root);
    } else if j < i {
        assert(s[j].block_root != s[i].block_root);
    }
}

} // verus!
