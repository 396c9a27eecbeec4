//! Set of current leaf blocks: the candidate chain tips.
//!
//! A root is added when its block is accepted and removed when it gains a
//! child; pruning drops every leaf that no longer descends from finality.

use vstd::prelude::*;
use crate::fork_choice::{ForkChoice, nodes_contain};

verus! {

/// Whether a sequence of roots holds a given root.
pub open spec fn roots_contain(s: Seq<u64>, r: u64) -> bool {
    exists|i: int| 0 <= i < s.len() && s[i] == r
}

/// Appending one root adds exactly that root to the contents.
pub proof fn lemma_roots_contain_push(s: Seq<u64>, x: u64)
    ensures
        forall|r: u64| roots_contain(s.push(x), r) == (roots_contain(s, r) || r == x),
{
    assert forall|r: u64| roots_contain(s.push(x), r) implies (roots_contain(s, r) || r == x) by {
        let i = choose|i: int| 0 <= i < s.push(x).len() && s.push(x)[i] == r;
        if i < s.len() {
            assert(s[i] == r);
        }
    }
    assert forall|r: u64| roots_contain(s, r) || r == x implies roots_contain(s.push(x), r) by {
        if r == x {
            assert(s.push(x)[s.len() as int] == r);
        } else {
            let i = choose|i: int| 0 <= i < s.len() && s[i] == r;
            assert(s.push(x)[i] == r);
        }
    }
}

/// Set of block roots currently without known children.
pub struct HeadTracker {
    pub heads: Vec<u64>,
}

impl HeadTracker {
    /// No duplicate entries: the tracker is a set.
    pub open spec fn wf(self) -> bool {
        forall|i: int, j: int| 0 <= i < j < self.heads@.len() ==> self.heads@[i] != self.heads@[j]
    }

    /// A tracker holding one initial leaf.
    pub fn new(genesis_root: u64) -> (r: Self)
        ensures
            r.wf(),
            r.heads@ =~= seq![genesis_root],
    {
        let mut heads: Vec<u64> = Vec::new();
        heads.push(genesis_root);
        HeadTracker { heads }
    }

    /// Whether a root is currently tracked as a leaf.
    pub fn contains(&self, root: u64) -> (r: bool)
        ensures
            r == roots_contain(self.heads@, root),
    {
        let mut i: usize = 0;
        while i < self.heads.len()
            invariant
                0 <= i <= self.heads@.len(),
                forall|k: int| 0 <= k < i ==> self.heads@[k] != root,
            decreases self.heads@.len() - i,
        {
            if self.heads[i] == root {
                return true;
            }
            i = i + 1;
        }
        false
    }

    /// A parent gained a child: it is no longer a leaf.
    pub fn on_new_child(&mut self, parent: u64)
        requires
            old(self).wf(),
        ensures
            final(self).wf(),
            forall|r: u64|
                roots_contain(final(self).heads@, r) == (roots_contain(old(self).heads@, r) && r
                    != parent),
    {
        let mut kept: Vec<u64> = Vec::new();
        let mut i: usize = 0;
        while i < self.heads.len()
            invariant
                0 <= i <= self.heads@.len(),
                old(self).wf(),
                self.heads@ == old(self).heads@,
                forall|r: u64|
                    roots_contain(kept@, r) == (roots_contain(self.heads@.take(i as int), r) && r
                        != parent),
                forall|a: int, b: int| 0 <= a < b < kept@.len() ==> kept@[a] != kept@[b],
            decreases self.heads@.len() - i,
        {
            let h = self.heads[i];
            let ghost kept0 = kept@;
            proof {
                assert(self.heads@.take(i + 1) =~= self.heads@.take(i as int).push(h));
                lemma_roots_contain_push(self.heads@.take(i as int), h);
            }
            if h != parent {
                proof {
                    assert(!roots_contain(kept@, h)) by {
                        if roots_contain(kept@, h) {
                            assert(roots_contain(self.heads@.take(i as int), h));
                            let k = choose|k: int|
                                0 <= k < i && self.heads@.take(i as int)[k] == h;
                            assert(self.heads@[k] == self.heads@[i as int]);
                        }
                    }
                }
                kept.push(h);
                proof {
                    lemma_roots_contain_push(kept0, h);
                    assert forall|r: u64|
                        roots_contain(kept@, r) == (roots_contain(self.heads@.take(i + 1), r) && r
                            != parent) by {
                        assert(roots_contain(kept@, r) == (roots_contain(kept0, r) || r == h));
                        assert(roots_contain(self.heads@.take(i + 1), r) == (roots_contain(
                            self.heads@.take(i as int),
                            r,
                        ) || r == h));
                    }
                }
            } else {
                proof {
                    assert forall|r: u64|
                        roots_contain(kept@, r) == (roots_contain(self.heads@.take(i + 1), r) && r
                            != parent) by {
                        assert(roots_contain(self.heads@.take(i + 1), r) == (roots_contain(
                            self.heads@.take(i as int),
                            r,
                        ) || r == h));
                    }
                }
            }
            i = i + 1;
        }
        proof {
            assert(self.heads@.take(self.heads@.len() as int) =~= self.heads@);
        }
        self.heads = kept;
    }

    /// A block was accepted: its root becomes a leaf (if not already one).
    pub fn on_block(&mut self, root: u64)
        requires
            old(self).wf(),
        ensures
            final(self).wf(),
            forall|r: u64|
                roots_contain(final(self).heads@, r) == (roots_contain(old(self).heads@, r) || r
                    == root),
    {
        if !self.contains(root) {
            proof {
                lemma_roots_contain_push(self.heads@, root);
            }
            self.heads.push(root);
        }
    }

}

/// The leaf set with every root that is no longer registered in the
/// fork-choice store dropped — after the store was pruned to a finalized
/// checkpoint, exactly the leaves that do not descend from it.
pub fn pruned_heads(fc: &ForkChoice, heads: &Vec<u64>) -> (r: Vec<u64>)
    requires
        fc.wf(),
        forall|a: int, b: int| 0 <= a < b < heads@.len() ==> heads@[a] != heads@[b],
    ensures
        forall|a: int, b: int| 0 <= a < b < r@.len() ==> r@[a] != r@[b],
        forall|h: u64|
            roots_contain(r@, h) == (roots_contain(heads@, h) && nodes_contain(fc.nodes@, h)),
{
    let mut kept: Vec<u64> = Vec::new();
    let mut i: usize = 0;
    while i < heads.len()
        invariant
            0 <= i <= heads@.len(),
            fc.wf(),
            forall|a: int, b: int| 0 <= a < b < heads@.len() ==> heads@[a] != heads@[b],
            forall|h: u64|
                roots_contain(kept@, h) == (roots_contain(heads@.take(i as int), h)
                    && nodes_contain(fc.nodes@, h)),
            forall|a: int, b: int| 0 <= a < b < kept@.len() ==> kept@[a] != kept@[b],
        decreases heads@.len() - i,
    {
        let h = heads[i];
        let ghost kept0 = kept@;
        proof {
            assert(heads@.take(i + 1) =~= heads@.take(i as int).push(h));
            lemma_roots_contain_push(heads@.take(i as int), h);
        }
        if fc.contains_block(h) {
            proof {
                assert(!roots_contain(kept@, h)) by {
                    if roots_contain(kept@, h) {
                        assert(roots_contain(heads@.take(i as int), h));
                        let k = choose|k: int| 0 <= k < i && heads@.take(i as int)[k] == h;
                        assert(heads@[k] == heads@[i as int]);
                    }
                }
            }
            kept.push(h);
            proof {
                lemma_roots_contain_push(kept0, h);
                assert forall|r: u64|
                    roots_contain(kept@, r) == (roots_contain(heads@.take(i + 1), r)
                        && nodes_contain(fc.nodes@, r)) by {
                    assert(roots_contain(kept@, r) == (roots_contain(kept0, r) || r == h));
                    assert(roots_contain(heads@.take(i + 1), r) == (roots_contain(
                        heads@.take(i as int),
                        r,
                    ) || r == h));
                }
            }
        } else {
            proof {
                assert forall|r: u64|
                    roots_contain(kept@, r) == (roots_contain(heads@.take(i + 1), r)
                        && nodes_contain(fc.nodes@, r)) by {
                    assert(roots_contain(heads@.take(i + 1), r) == (roots_contain(
                        heads@.take(i as int),
                        r,
                    ) || r == h));
                }
            }
        }
        i = i + 1;
    }
    proof {
        assert(heads@.take(heads@.len() as int) =~= heads@);
    }
    kept
}

} // verus!
