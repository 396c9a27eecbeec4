//! Weighted fork-choice tree: latest-message-driven greedy heaviest
//! observed subtree.
//!
//! Each accepted block is a node linked under its parent. A validator's
//! latest vote (monotonic in epoch) carries its effective balance as weight
//! onto the target and, incrementally, onto the target's ancestors up to the
//! justified checkpoint. The head is found by descending from the justified
//! checkpoint to the heaviest child, breaking ties by the smallest root.

use vstd::prelude::*;
use crate::primitives::Checkpoint;

verus! {

/// One block in the fork-choice tree. The parent is an index into the node
/// sequence; parents always precede their children.
#[derive(Clone, Copy, PartialEq, Eq, Structural, Debug)]
pub struct ForkNode {
    pub root: u64,
    pub parent: Option<usize>,
    pub slot: u64,
    pub weight: u64,
}

/// A validator's latest message: epoch, target and the balance it carried.
#[derive(Clone, Copy, PartialEq, Eq, Structural, Debug)]
pub struct Vote {
    pub epoch: u64,
    pub root: u64,
    pub balance: u64,
}

/// Outcome of feeding one attestation to the store.
#[derive(Clone, Copy, PartialEq, Eq, Structural, Debug)]
pub enum AttestationOutcome {
    Accepted,
    Ignored,
    Invalid,
}

/// Whether a node has a parent link.
pub open spec fn has_parent(n: ForkNode) -> bool {
    match n.parent {
        Some(_) => true,
        None => false,
    }
}

/// Parent index of a node (meaningful only when it has one).
pub open spec fn parent_of(n: ForkNode) -> int {
    match n.parent {
        Some(p) => p as int,
        None => -1,
    }
}

/// Whether a node sequence holds a given root.
pub open spec fn nodes_contain(nodes: Seq<ForkNode>, r: u64) -> bool {
    exists|i: int| 0 <= i < nodes.len() && nodes[i].root == r
}

/// Index of the node with a root (meaningful when present and roots are
/// unique).
pub open spec fn node_index(nodes: Seq<ForkNode>, r: u64) -> int {
    choose|i: int| 0 <= i < nodes.len() && nodes[i].root == r
}

/// Parents precede their children.
pub open spec fn parents_before(nodes: Seq<ForkNode>) -> bool {
    forall|i: int|
        0 <= i < nodes.len() && has_parent(#[trigger] nodes[i]) ==> 0 <= parent_of(nodes[i]) < i
}

/// No two nodes share a root.
pub open spec fn roots_unique(nodes: Seq<ForkNode>) -> bool {
    forall|i: int, j: int| 0 <= i < j < nodes.len() ==> nodes[i].root != nodes[j].root
}

/// Whether node `i` descends from (or is) node `j`, following parent links.
pub open spec fn is_descendant_idx(nodes: Seq<ForkNode>, i: int, j: int) -> bool
    decreases i,
{
    if i == j {
        true
    } else if 0 <= i < nodes.len() && has_parent(nodes[i]) && 0 <= parent_of(nodes[i]) < i {
        is_descendant_idx(nodes, parent_of(nodes[i]), j)
    } else {
        false
    }
}

/// Descent is transitive.
pub proof fn lemma_descendant_trans(nodes: Seq<ForkNode>, a: int, b: int, c: int)
    requires
        is_descendant_idx(nodes, a, b),
        is_descendant_idx(nodes, b, c),
    ensures
        is_descendant_idx(nodes, a, c),
    decreases a,
{
    if a == b {
    } else {
        lemma_descendant_trans(nodes, parent_of(nodes[a]), b, c);
    }
}

/// A non-trivial descendant has a parent that also descends.
pub proof fn lemma_descendant_parent(nodes: Seq<ForkNode>, i: int, j: int)
    requires
        is_descendant_idx(nodes, i, j),
        i != j,
    ensures
        0 <= i < nodes.len(),
        has_parent(nodes[i]),
        0 <= parent_of(nodes[i]) < i,
        is_descendant_idx(nodes, parent_of(nodes[i]), j),
{
}

/// The LMD-GHOST store.
pub struct ForkChoice {
    pub nodes: Vec<ForkNode>,
    pub votes: Vec<Option<Vote>>,
    pub justified: Checkpoint,
    pub finalized: Checkpoint,
}

/// Every recorded vote targets a registered block.
pub open spec fn votes_known(nodes: Seq<ForkNode>, votes: Seq<Option<Vote>>) -> bool {
    forall|v: int|
        0 <= v < votes.len() ==> match #[trigger] votes[v] {
            Some(w) => nodes_contain(nodes, w.root),
            None => true,
        }
}

impl ForkChoice {
    /// Structural well-formedness of the store.
    pub open spec fn wf(self) -> bool {
        &&& parents_before(self.nodes@)
        &&& roots_unique(self.nodes@)
        &&& nodes_contain(self.nodes@, self.justified.root)
        &&& nodes_contain(self.nodes@, self.finalized.root)
        &&& votes_known(self.nodes@, self.votes@)
    }

    /// A store holding only the genesis block, justified and finalized at it.
    pub fn new(genesis_root: u64, genesis_slot: u64) -> (r: Self)
        ensures
            r.wf(),
            r.nodes@ =~= seq![
                ForkNode { root: genesis_root, parent: None, slot: genesis_slot, weight: 0 },
            ],
            r.votes@.len() == 0,
            r.justified == (Checkpoint {
                epoch: crate::primitives::epoch_of_slot(genesis_slot),
                root: genesis_root,
            }),
            r.finalized == (Checkpoint {
                epoch: crate::primitives::epoch_of_slot(genesis_slot),
                root: genesis_root,
            }),
    {
        let mut nodes: Vec<ForkNode> = Vec::new();
        nodes.push(ForkNode { root: genesis_root, parent: None, slot: genesis_slot, weight: 0 });
        let epoch = crate::primitives::epoch_at_slot(genesis_slot);
        let cp = Checkpoint { epoch, root: genesis_root };
        let r = ForkChoice { nodes, votes: Vec::new(), justified: cp, finalized: cp };
        proof {
            assert(r.nodes@[0].root == genesis_root);
        }
        r
    }

    /// Index of the node with a root, if registered.
    pub fn find_index(&self, root: u64) -> (r: Option<usize>)
        ensures
            match r {
                Some(i) => i < self.nodes@.len() && self.nodes@[i as int].root == root,
                None => !nodes_contain(self.nodes@, root),
            },
    {
        let mut i: usize = 0;
        while i < self.nodes.len()
            invariant
                0 <= i <= self.nodes@.len(),
                forall|k: int| 0 <= k < i ==> self.nodes@[k].root != root,
            decreases self.nodes@.len() - i,
        {
            if self.nodes[i].root == root {
                return Some(i);
            }
            i = i + 1;
        }
        None
    }

    /// Whether a root is registered.
    pub fn contains_block(&self, root: u64) -> (r: bool)
        ensures
            r == nodes_contain(self.nodes@, root),
    {
        match self.find_index(root) {
            Some(_) => true,
            None => false,
        }
    }

    /// Register a block with weight zero, linked under its parent.
    pub fn on_block(&mut self, root: u64, parent_root: u64, slot: u64)
        requires
            old(self).wf(),
            !nodes_contain(old(self).nodes@, root),
            nodes_contain(old(self).nodes@, parent_root),
            old(self).nodes@.len() < usize::MAX,
        ensures
            final(self).wf(),
            final(self).nodes@ == old(self).nodes@.push(
                ForkNode {
                    root,
                    parent: Some(node_index(old(self).nodes@, parent_root) as usize),
                    slot,
                    weight: 0,
                },
            ),
            final(self).votes@ == old(self).votes@,
            final(self).justified == old(self).justified,
            final(self).finalized == old(self).finalized,
    {
        let pidx = match self.find_index(parent_root) {
            Some(i) => i,
            None => {
                proof {
                    assert(false);
                }
                0
            },
        };
        proof {
            lemma_node_index(self.nodes@, parent_root, pidx as int);
        }
        let ghost before = self.nodes@;
        self.nodes.push(ForkNode { root, parent: Some(pidx), slot, weight: 0 });
        proof {
            let nodes = self.nodes@;
            assert(forall|k: int| 0 <= k < before.len() ==> nodes[k] == before[k]);
            assert(nodes[before.len() as int].root == root);
            assert(parents_before(nodes));
            assert(roots_unique(nodes)) by {
                assert(forall|k: int| 0 <= k < before.len() ==> nodes[k].root != root);
            }
            assert(nodes_contain(nodes, self.justified.root)) by {
                let j = choose|j: int| 0 <= j < before.len() && before[j].root == self.justified.root;
                assert(nodes[j].root == self.justified.root);
            }
            assert(nodes_contain(nodes, self.finalized.root)) by {
                let j = choose|j: int| 0 <= j < before.len() && before[j].root == self.finalized.root;
                assert(nodes[j].root == self.finalized.root);
            }
            assert(votes_known(nodes, self.votes@)) by {
                assert forall|v: int| 0 <= v < self.votes@.len() implies match #[trigger] self.votes@[v] {
                    Some(w) => nodes_contain(nodes, w.root),
                    None => true,
                } by {
                    match self.votes@[v] {
                        Some(w) => {
                            assert(nodes_contain(before, w.root));
                            let j = choose|j: int|
                                0 <= j < before.len() && before[j].root == w.root;
                            assert(nodes[j].root == w.root);
                        },
                        None => {},
                    }
                }
            }
        }
    }
}

/// Sum capped at the largest weight.
pub open spec fn saturating_add_u64(a: u64, b: u64) -> u64 {
    if a + b <= u64::MAX {
        (a + b) as u64
    } else {
        u64::MAX
    }
}

/// Difference floored at zero.
pub open spec fn saturating_sub_u64(a: u64, b: u64) -> u64 {
    if a >= b {
        (a - b) as u64
    } else {
        0
    }
}

/// A node with its weight raised (or lowered) by an amount, saturating.
pub open spec fn adjusted_node(n: ForkNode, amount: u64, up: bool) -> ForkNode {
    ForkNode {
        root: n.root,
        parent: n.parent,
        slot: n.slot,
        weight: if up {
            saturating_add_u64(n.weight, amount)
        } else {
            saturating_sub_u64(n.weight, amount)
        },
    }
}

/// Node sequence after propagating a weight change from index `i` along the
/// parent chain, stopping at the node with `stop_root` (the justified
/// checkpoint) or at a root node.
pub open spec fn weight_adjusted(
    nodes: Seq<ForkNode>,
    i: int,
    stop_root: u64,
    amount: u64,
    up: bool,
) -> Seq<ForkNode>
    decreases i,
{
    if 0 <= i < nodes.len() {
        let upd = nodes.update(i, adjusted_node(nodes[i], amount, up));
        if nodes[i].root == stop_root {
            upd
        } else if has_parent(nodes[i]) && 0 <= parent_of(nodes[i]) < i {
            weight_adjusted(upd, parent_of(nodes[i]), stop_root, amount, up)
        } else {
            upd
        }
    } else {
        nodes
    }
}

/// Weight propagation changes only weights: length, roots, parents and
/// slots are untouched.
pub proof fn lemma_weight_adjusted_frame(
    nodes: Seq<ForkNode>,
    i: int,
    stop_root: u64,
    amount: u64,
    up: bool,
)
    ensures
        weight_adjusted(nodes, i, stop_root, amount, up).len() == nodes.len(),
        forall|k: int|
            0 <= k < nodes.len() ==> {
                let r = #[trigger] weight_adjusted(nodes, i, stop_root, amount, up)[k];
                r.root == nodes[k].root && r.parent == nodes[k].parent && r.slot == nodes[k].slot
            },
    decreases i,
{
    if 0 <= i < nodes.len() {
        let upd = nodes.update(i, adjusted_node(nodes[i], amount, up));
        if nodes[i].root == stop_root {
        } else if has_parent(nodes[i]) && 0 <= parent_of(nodes[i]) < i {
            lemma_weight_adjusted_frame(upd, parent_of(nodes[i]), stop_root, amount, up);
        }
    }
}

/// Containment of every root is preserved by weight propagation.
pub proof fn lemma_weight_adjusted_contains(
    nodes: Seq<ForkNode>,
    i: int,
    stop_root: u64,
    amount: u64,
    up: bool,
)
    ensures
        forall|r: u64|
            nodes_contain(#[trigger] weight_adjusted(nodes, i, stop_root, amount, up), r)
                == nodes_contain(nodes, r),
{
    lemma_weight_adjusted_frame(nodes, i, stop_root, amount, up);
    let out = weight_adjusted(nodes, i, stop_root, amount, up);
    assert forall|r: u64| nodes_contain(out, r) == nodes_contain(nodes, r) by {
        if nodes_contain(out, r) {
            let k = choose|k: int| 0 <= k < out.len() && out[k].root == r;
            assert(nodes[k].root == r);
        }
        if nodes_contain(nodes, r) {
            let k = choose|k: int| 0 <= k < nodes.len() && nodes[k].root == r;
            assert(out[k].root == r);
        }
    }
}

/// Applying an attestation changes only weights: length, roots, parents
/// and slots are untouched.
pub proof fn lemma_attestation_weights_frame(
    nodes: Seq<ForkNode>,
    votes: Seq<Option<Vote>>,
    v: int,
    target_root: u64,
    balance: u64,
    justified_root: u64,
)
    ensures
        ({
            let out = attestation_weights(nodes, votes, v, target_root, balance, justified_root);
            &&& out.len() == nodes.len()
            &&& forall|k: int|
                0 <= k < nodes.len() ==> (#[trigger] out[k]).root == nodes[k].root && out[k].parent
                    == nodes[k].parent && out[k].slot == nodes[k].slot
        }),
{
    match prev_vote(votes, v) {
        Some(w) => {
            let base = weight_adjusted(
                nodes,
                node_index(nodes, w.root),
                justified_root,
                w.balance,
                false,
            );
            lemma_weight_adjusted_frame(nodes, node_index(nodes, w.root), justified_root, w.balance, false);
            lemma_weight_adjusted_frame(base, node_index(base, target_root), justified_root, balance, true);
        },
        None => {
            lemma_weight_adjusted_frame(nodes, node_index(nodes, target_root), justified_root, balance, true);
        },
    }
}

/// A validator's previously recorded vote, if any.
pub open spec fn prev_vote(votes: Seq<Option<Vote>>, v: int) -> Option<Vote> {
    if 0 <= v < votes.len() {
        votes[v]
    } else {
        None
    }
}

/// Whether a new message at `epoch` is stale for validator `v`: an equal or
/// later epoch is already recorded (no re-vote within an epoch).
pub open spec fn vote_stale(votes: Seq<Option<Vote>>, v: int, epoch: u64) -> bool {
    match prev_vote(votes, v) {
        Some(w) => w.epoch >= epoch,
        None => false,
    }
}

/// Vote sequence padded with empty slots so that index `v` exists.
pub open spec fn votes_extended(votes: Seq<Option<Vote>>, v: int) -> Seq<Option<Vote>> {
    if v < votes.len() {
        votes
    } else {
        votes + Seq::new((v + 1 - votes.len()) as nat, |k: int| None::<Vote>)
    }
}

/// Node weights after an accepted attestation: the old vote's balance is
/// drained from the old target's ancestor chain, then the new balance is
/// added along the new target's chain, both up to the justified checkpoint.
pub open spec fn attestation_weights(
    nodes: Seq<ForkNode>,
    votes: Seq<Option<Vote>>,
    v: int,
    target_root: u64,
    balance: u64,
    justified_root: u64,
) -> Seq<ForkNode> {
    let base = match prev_vote(votes, v) {
        Some(w) => weight_adjusted(nodes, node_index(nodes, w.root), justified_root, w.balance, false),
        None => nodes,
    };
    weight_adjusted(base, node_index(base, target_root), justified_root, balance, true)
}

impl ForkChoice {
    /// Propagate a weight change from a node along its ancestors up to the
    /// justified checkpoint.
    fn adjust_weights(&mut self, start: usize, amount: u64, up: bool)
        requires
            old(self).wf(),
            start < old(self).nodes@.len(),
        ensures
            final(self).wf(),
            final(self).nodes@ == weight_adjusted(
                old(self).nodes@,
                start as int,
                old(self).justified.root,
                amount,
                up,
            ),
            final(self).votes@ == old(self).votes@,
            final(self).justified == old(self).justified,
            final(self).finalized == old(self).finalized,
    {
        let stop_root = self.justified.root;
        let ghost orig = self.nodes@;
        let mut cur = start;
        loop
            invariant_except_break
                cur < self.nodes@.len(),
                self.nodes@.len() == orig.len(),
                parents_before(self.nodes@),
                forall|k: int|
                    0 <= k < orig.len() ==> {
                        let n = #[trigger] self.nodes@[k];
                        n.root == orig[k].root && n.parent == orig[k].parent && n.slot
                            == orig[k].slot
                    },
                self.votes@ == old(self).votes@,
                self.justified == old(self).justified,
                self.finalized == old(self).finalized,
                stop_root == old(self).justified.root,
                weight_adjusted(orig, start as int, stop_root, amount, up) == weight_adjusted(
                    self.nodes@,
                    cur as int,
                    stop_root,
                    amount,
                    up,
                ),
            ensures
                self.nodes@ == weight_adjusted(orig, start as int, stop_root, amount, up),
                self.nodes@.len() == orig.len(),
                parents_before(self.nodes@),
                forall|k: int|
                    0 <= k < orig.len() ==> {
                        let n = #[trigger] self.nodes@[k];
                        n.root == orig[k].root && n.parent == orig[k].parent && n.slot
                            == orig[k].slot
                    },
                self.votes@ == old(self).votes@,
                self.justified == old(self).justified,
                self.finalized == old(self).finalized,
            decreases cur,
        {
            let ghost pre = self.nodes@;
            let n = self.nodes[cur];
            let nw = if up {
                if n.weight <= u64::MAX - amount {
                    n.weight + amount
                } else {
                    u64::MAX
                }
            } else {
                if n.weight >= amount {
                    n.weight - amount
                } else {
                    0
                }
            };
            self.nodes.set(cur, ForkNode { root: n.root, parent: n.parent, slot: n.slot, weight: nw });
            proof {
                assert(self.nodes@ =~= pre.update(cur as int, adjusted_node(pre[cur as int], amount, up)));
            }
            if n.root == stop_root {
                proof {
                    assert(weight_adjusted(pre, cur as int, stop_root, amount, up) == self.nodes@);
                }
                break ;
            }
            match n.parent {
                Some(p) => {
                    proof {
                        assert(weight_adjusted(pre, cur as int, stop_root, amount, up)
                            == weight_adjusted(self.nodes@, p as int, stop_root, amount, up));
                    }
                    cur = p;
                },
                None => {
                    proof {
                        assert(weight_adjusted(pre, cur as int, stop_root, amount, up) == self.nodes@);
                    }
                    break ;
                },
            }
        }
        proof {
            assert(roots_unique(self.nodes@)) by {
                assert forall|i: int, j: int|
                    0 <= i < j < self.nodes@.len() implies self.nodes@[i].root
                    != self.nodes@[j].root by {
                    assert(self.nodes@[i].root == orig[i].root);
                    assert(self.nodes@[j].root == orig[j].root);
                }
            }
            assert(nodes_contain(self.nodes@, self.justified.root)) by {
                let j = choose|j: int| 0 <= j < orig.len() && orig[j].root == old(self).justified.root;
                assert(self.nodes@[j].root == self.justified.root);
            }
            assert(nodes_contain(self.nodes@, self.finalized.root)) by {
                let j = choose|j: int| 0 <= j < orig.len() && orig[j].root == old(self).finalized.root;
                assert(self.nodes@[j].root == self.finalized.root);
            }
            assert(votes_known(self.nodes@, self.votes@)) by {
                assert forall|v: int|
                    0 <= v < self.votes@.len() implies match #[trigger] self.votes@[v] {
                    Some(w) => nodes_contain(self.nodes@, w.root),
                    None => true,
                } by {
                    match self.votes@[v] {
                        Some(w) => {
                            assert(nodes_contain(orig, w.root));
                            let j = choose|j: int| 0 <= j < orig.len() && orig[j].root == w.root;
                            assert(self.nodes@[j].root == w.root);
                        },
                        None => {},
                    }
                }
            }
        }
    }

    /// Feed one attestation: update the validator's latest message only if
    /// the attestation's epoch is strictly greater than the recorded one,
    /// then shift the validator's balance from the old target's ancestor
    /// chain to the new target's.
    pub fn on_attestation(&mut self, validator: usize, epoch: u64, target_root: u64, balance: u64)
        -> (r: AttestationOutcome)
        requires
            old(self).wf(),
            validator < usize::MAX,
        ensures
            final(self).wf(),
            final(self).justified == old(self).justified,
            final(self).finalized == old(self).finalized,
            !nodes_contain(old(self).nodes@, target_root) ==> r == AttestationOutcome::Invalid
                && final(self).nodes@ == old(self).nodes@ && final(self).votes@ == old(self).votes@,
            nodes_contain(old(self).nodes@, target_root) && vote_stale(
                old(self).votes@,
                validator as int,
                epoch,
            ) ==> r == AttestationOutcome::Ignored && final(self).nodes@ == old(self).nodes@
                && final(self).votes@ == old(self).votes@,
            nodes_contain(old(self).nodes@, target_root) && !vote_stale(
                old(self).votes@,
                validator as int,
                epoch,
            ) ==> r == AttestationOutcome::Accepted && final(self).nodes@ == attestation_weights(
                old(self).nodes@,
                old(self).votes@,
                validator as int,
                target_root,
                balance,
                old(self).justified.root,
            ) && final(self).votes@ == votes_extended(old(self).votes@, validator as int).update(
                validator as int,
                Some(Vote { epoch, root: target_root, balance }),
            ),
    {
        if !self.contains_block(target_root) {
            return AttestationOutcome::Invalid;
        }
        let ghost nodes0 = self.nodes@;
        let ghost votes0 = self.votes@;
        // Make room for the validator's slot.
        if validator >= self.votes.len() {
            let mut k = self.votes.len();
            while k <= validator
                invariant
                    validator < usize::MAX,
                    votes0.len() <= k <= validator + 1,
                    self.votes@ =~= votes0 + Seq::new((k - votes0.len()) as nat, |t: int| None::<Vote>),
                    self.nodes@ == nodes0,
                    self.justified == old(self).justified,
                    self.finalized == old(self).finalized,
                decreases validator + 1 - k,
            {
                self.votes.push(None);
                proof {
                    assert(self.votes@ =~= votes0 + Seq::new((k + 1 - votes0.len()) as nat, |t: int| None::<Vote>));
                }
                k = k + 1;
            }
        }
        proof {
            assert(self.votes@ =~= votes_extended(votes0, validator as int));
            assert(votes_known(self.nodes@, self.votes@)) by {
                assert forall|v: int|
                    0 <= v < self.votes@.len() implies match #[trigger] self.votes@[v] {
                    Some(w) => nodes_contain(self.nodes@, w.root),
                    None => true,
                } by {
                    if v < votes0.len() {
                        assert(self.votes@[v] == votes0[v]);
                    } else {
                        assert(self.votes@[v] == None::<Vote>);
                    }
                }
            }
        }
        let previous = self.votes[validator];
        proof {
            if (validator as int) < votes0.len() {
                assert(prev_vote(votes0, validator as int) == previous);
            } else {
                assert(prev_vote(votes0, validator as int) == None::<Vote>);
                assert(previous == None::<Vote>);
            }
        }
        match previous {
            Some(w) => {
                if w.epoch >= epoch {
                    proof {
                        assert(self.votes@ == votes0);
                    }
                    return AttestationOutcome::Ignored;
                }
            },
            None => {},
        }
        // Drain the old vote's balance from the old target's chain.
        match previous {
            Some(w) => {
                let oidx = match self.find_index(w.root) {
                    Some(i) => i,
                    None => {
                        proof {
                            assert(nodes_contain(self.nodes@, w.root));
                            assert(false);
                        }
                        0
                    },
                };
                proof {
                    lemma_node_index(self.nodes@, w.root, oidx as int);
                }
                self.adjust_weights(oidx, w.balance, false);
            },
            None => {},
        }
        proof {
            match previous {
                Some(w) => {
                    assert(self.nodes@ == weight_adjusted(
                        nodes0,
                        node_index(nodes0, w.root),
                        old(self).justified.root,
                        w.balance,
                        false,
                    ));
                },
                None => {
                    assert(self.nodes@ == nodes0);
                },
            }
        }
        let ghost base = self.nodes@;
        // Add the new balance along the new target's chain.
        let tidx = match self.find_index(target_root) {
            Some(i) => i,
            None => {
                proof {
                    assert(nodes_contain(nodes0, target_root));
                    match previous {
                        Some(w) => {
                            lemma_weight_adjusted_contains(
                                nodes0,
                                node_index(nodes0, w.root),
                                old(self).justified.root,
                                w.balance,
                                false,
                            );
                        },
                        None => {},
                    }
                    assert(false);
                }
                0
            },
        };
        proof {
            lemma_node_index(self.nodes@, target_root, tidx as int);
        }
        self.adjust_weights(tidx, balance, true);
        self.votes.set(validator, Some(Vote { epoch, root: target_root, balance }));
        proof {
            assert(self.nodes@ == weight_adjusted(
                base,
                node_index(base, target_root),
                old(self).justified.root,
                balance,
                true,
            ));
            assert(votes_known(self.nodes@, self.votes@)) by {
                lemma_weight_adjusted_contains(
                    base,
                    node_index(base, target_root),
                    old(self).justified.root,
                    balance,
                    true,
                );
                assert(nodes_contain(base, target_root)) by {
                    assert(base[tidx as int].root == target_root);
                }
                assert(nodes_contain(self.nodes@, target_root));
                assert forall|v: int|
                    0 <= v < self.votes@.len() implies match #[trigger] self.votes@[v] {
                    Some(w) => nodes_contain(self.nodes@, w.root),
                    None => true,
                } by {
                    if v != validator as int {
                        assert(self.votes@[v] == votes_extended(votes0, validator as int)[v]);
                    }
                }
            }
        }
        AttestationOutcome::Accepted
    }
}

/// Whether node `c` is a child of node `p`.
pub open spec fn is_child(nodes: Seq<ForkNode>, c: int, p: int) -> bool {
    0 <= c < nodes.len() && has_parent(nodes[c]) && parent_of(nodes[c]) == p
}

/// Whether node `p` has any child.
pub open spec fn has_child(nodes: Seq<ForkNode>, p: int) -> bool {
    exists|c: int| is_child(nodes, c, p)
}

/// Strict preference between siblings: greater accumulated weight wins, and
/// the lexicographically smaller root breaks ties.
pub open spec fn beats(a: ForkNode, b: ForkNode) -> bool {
    a.weight > b.weight || (a.weight == b.weight && a.root < b.root)
}

/// Whether `c` is the child of `p` preferred over every sibling.
pub open spec fn is_best_child(nodes: Seq<ForkNode>, p: int, c: int) -> bool {
    is_child(nodes, c, p) && forall|d: int|
        is_child(nodes, d, p) && d != c ==> beats(nodes[c], #[trigger] nodes[d])
}

/// Law: the preferred child is unique — the tie-break is deterministic, so
/// replicas that agree on the nodes and weights agree on every descent step,
/// whatever order votes and blocks arrived in.
pub proof fn lemma_best_child_unique(nodes: Seq<ForkNode>, p: int, c1: int, c2: int)
    requires
        is_best_child(nodes, p, c1),
        is_best_child(nodes, p, c2),
    ensures
        c1 == c2,
{
    if c1 != c2 {
        assert(beats(nodes[c1], nodes[c2]));
        assert(beats(nodes[c2], nodes[c1]));
    }
}

/// Head reached by descending from node `i` to the preferred child until a
/// leaf: the latest-message-driven greedy heaviest-observed-subtree rule.
pub open spec fn spec_head_from(nodes: Seq<ForkNode>, i: int) -> int
    decreases nodes.len() - i,
{
    if exists|c: int| is_best_child(nodes, i, c) {
        let c = choose|c: int| is_best_child(nodes, i, c);
        if i < c < nodes.len() {
            spec_head_from(nodes, c)
        } else {
            i
        }
    } else {
        i
    }
}

/// The selected head descends from the start of the descent.
pub proof fn lemma_head_from_descends(nodes: Seq<ForkNode>, i: int)
    requires
        parents_before(nodes),
        0 <= i < nodes.len(),
    ensures
        0 <= spec_head_from(nodes, i) < nodes.len(),
        is_descendant_idx(nodes, spec_head_from(nodes, i), i),
    decreases nodes.len() - i,
{
    if exists|c: int| is_best_child(nodes, i, c) {
        let c = choose|c: int| is_best_child(nodes, i, c);
        assert(is_child(nodes, c, i));
        assert(i < c < nodes.len());
        lemma_head_from_descends(nodes, c);
        assert(is_descendant_idx(nodes, c, i)) by {
            assert(has_parent(nodes[c]));
            assert(parent_of(nodes[c]) == i);
            assert(0 <= i < c);
            assert(is_descendant_idx(nodes, i, i));
        }
        lemma_descendant_trans(nodes, spec_head_from(nodes, c), c, i);
    }
}

impl ForkChoice {
    /// The child of `p` preferred over every sibling, if `p` has children.
    fn find_best_child(&self, p: usize) -> (r: Option<usize>)
        requires
            self.wf(),
            p < self.nodes@.len(),
        ensures
            match r {
                Some(c) => is_best_child(self.nodes@, p as int, c as int) && p < c
                    < self.nodes@.len(),
                None => !has_child(self.nodes@, p as int),
            },
    {
        let mut best: Option<usize> = None;
        let mut j: usize = 0;
        while j < self.nodes.len()
            invariant
                self.wf(),
                p < self.nodes@.len(),
                0 <= j <= self.nodes@.len(),
                match best {
                    Some(b) => is_child(self.nodes@, b as int, p as int) && b < j && forall|d: int|
                        is_child(self.nodes@, d, p as int) && d < j && d != b ==> beats(
                            self.nodes@[b as int],
                            #[trigger] self.nodes@[d],
                        ),
                    None => forall|d: int| 0 <= d < j ==> !is_child(self.nodes@, d, p as int),
                },
            decreases self.nodes@.len() - j,
        {
            let n = self.nodes[j];
            let child = match n.parent {
                Some(q) => q == p,
                None => false,
            };
            if child {
                match best {
                    Some(b) => {
                        let bn = self.nodes[b];
                        let better = n.weight > bn.weight || (n.weight == bn.weight && n.root
                            < bn.root);
                        if better {
                            best = Some(j);
                        } else {
                            proof {
                                assert(self.nodes@[b as int].root != self.nodes@[j as int].root);
                                assert(beats(self.nodes@[b as int], self.nodes@[j as int]));
                            }
                        }
                    },
                    None => {
                        best = Some(j);
                    },
                }
            }
            j = j + 1;
        }
        proof {
            match best {
                Some(b) => {
                    assert(is_best_child(self.nodes@, p as int, b as int));
                    assert((p as int) < b as int) by {
                        assert(parent_of(self.nodes@[b as int]) == p as int);
                    }
                },
                None => {
                    assert(!has_child(self.nodes@, p as int)) by {
                        if has_child(self.nodes@, p as int) {
                            let c = choose|c: int| is_child(self.nodes@, c, p as int);
                            assert(0 <= c < self.nodes@.len());
                        }
                    }
                },
            }
        }
        best
    }

    /// Select the canonical head: start at the justified checkpoint and
    /// repeatedly descend to the preferred child; the leaf reached is the
    /// head. The result is a registered leaf that descends from the
    /// justified checkpoint.
    pub fn get_head(&self) -> (r: u64)
        requires
            self.wf(),
        ensures
            ({
                let jidx = node_index(self.nodes@, self.justified.root);
                let hidx = spec_head_from(self.nodes@, jidx);
                &&& r == self.nodes@[hidx].root
                &&& 0 <= hidx < self.nodes@.len()
                &&& !has_child(self.nodes@, hidx)
                &&& is_descendant_idx(self.nodes@, hidx, jidx)
                &&& nodes_contain(self.nodes@, r)
            }),
    {
        let jidx = match self.find_index(self.justified.root) {
            Some(i) => i,
            None => {
                proof {
                    assert(false);
                }
                0
            },
        };
        proof {
            lemma_node_index(self.nodes@, self.justified.root, jidx as int);
        }
        let mut cur = jidx;
        loop
            invariant_except_break
                self.wf(),
                cur < self.nodes@.len(),
                spec_head_from(self.nodes@, jidx as int) == spec_head_from(self.nodes@, cur as int),
            ensures
                cur < self.nodes@.len(),
                cur as int == spec_head_from(self.nodes@, jidx as int),
                !has_child(self.nodes@, cur as int),
            decreases self.nodes@.len() - cur,
        {
            match self.find_best_child(cur) {
                Some(c) => {
                    proof {
                        let cc = choose|d: int| is_best_child(self.nodes@, cur as int, d);
                        lemma_best_child_unique(self.nodes@, cur as int, cc, c as int);
                        assert(spec_head_from(self.nodes@, cur as int) == spec_head_from(
                            self.nodes@,
                            c as int,
                        ));
                    }
                    cur = c;
                },
                None => {
                    proof {
                        assert(!(exists|c: int| is_best_child(self.nodes@, cur as int, c))) by {
                            if exists|c: int| is_best_child(self.nodes@, cur as int, c) {
                                let c = choose|c: int| is_best_child(self.nodes@, cur as int, c);
                                assert(is_child(self.nodes@, c, cur as int));
                            }
                        }
                        assert(spec_head_from(self.nodes@, cur as int) == cur as int);
                    }
                    break ;
                },
            }
        }
        proof {
            lemma_head_from_descends(self.nodes@, jidx as int);
        }
        self.nodes[cur].root
    }
}

/// Whether node `k` lies on the path to node `c` (an ancestor of it, or
/// the node itself) or descends from it.
pub open spec fn path_idx(nodes: Seq<ForkNode>, k: int, c: int) -> bool {
    is_descendant_idx(nodes, k, c) || is_descendant_idx(nodes, c, k)
}

/// Whether the block with root `r` lies on the path to the block with root
/// `f`, or descends from it (meaningful when roots are unique).
pub open spec fn on_finalized_path(nodes: Seq<ForkNode>, r: u64, f: u64) -> bool {
    descends_root(nodes, r, f) || descends_root(nodes, f, r)
}

/// The parent of a node on the finalized path is on the finalized path.
proof fn lemma_path_parent(nodes: Seq<ForkNode>, k: int, c: int)
    requires
        parents_before(nodes),
        0 <= k < nodes.len(),
        0 <= c < nodes.len(),
        has_parent(nodes[k]),
        path_idx(nodes, k, c),
    ensures
        0 <= parent_of(nodes[k]) < k,
        path_idx(nodes, parent_of(nodes[k]), c),
{
    let p = parent_of(nodes[k]);
    if is_descendant_idx(nodes, c, k) {
        assert(is_descendant_idx(nodes, k, p)) by {
            assert(is_descendant_idx(nodes, p, p));
        }
        lemma_descendant_trans(nodes, c, k, p);
    } else {
        assert(is_descendant_idx(nodes, k, c) && k != c);
        lemma_descendant_parent(nodes, k, c);
    }
}

/// Root of a node's parent, if it has one.
pub open spec fn parent_root_of(nodes: Seq<ForkNode>, i: int) -> Option<u64> {
    if 0 <= i < nodes.len() && has_parent(nodes[i]) && 0 <= parent_of(nodes[i]) < nodes.len() {
        Some(nodes[parent_of(nodes[i])].root)
    } else {
        None
    }
}

/// Two node sequences describe the same weighted tree: the same roots, and
/// for each root the same weight and the same parent root — whatever order
/// the nodes were inserted in.
pub open spec fn same_tree(nodes1: Seq<ForkNode>, nodes2: Seq<ForkNode>) -> bool {
    &&& forall|i: int| 0 <= i < nodes1.len() ==> nodes_contain(nodes2, (#[trigger] nodes1[i]).root)
    &&& forall|i: int| 0 <= i < nodes2.len() ==> nodes_contain(nodes1, (#[trigger] nodes2[i]).root)
    &&& forall|i1: int, i2: int|
        0 <= i1 < nodes1.len() && 0 <= i2 < nodes2.len() && (#[trigger] nodes1[i1]).root == (
        #[trigger] nodes2[i2]).root ==> nodes1[i1].weight == nodes2[i2].weight && parent_root_of(
            nodes1,
            i1,
        ) == parent_root_of(nodes2, i2)
}

/// A child edge carries over to any sequence describing the same tree.
proof fn lemma_child_maps(
    nodes1: Seq<ForkNode>,
    nodes2: Seq<ForkNode>,
    c1: int,
    p1: int,
    c2: int,
    p2: int,
)
    requires
        parents_before(nodes1),
        parents_before(nodes2),
        roots_unique(nodes2),
        same_tree(nodes1, nodes2),
        is_child(nodes1, c1, p1),
        0 <= p1 < nodes1.len(),
        0 <= c2 < nodes2.len(),
        nodes2[c2].root == nodes1[c1].root,
        0 <= p2 < nodes2.len(),
        nodes2[p2].root == nodes1[p1].root,
    ensures
        is_child(nodes2, c2, p2),
{
    assert(0 <= parent_of(nodes1[c1]) < nodes1.len());
    assert(parent_root_of(nodes1, c1) == Some(nodes1[p1].root));
    assert(parent_root_of(nodes2, c2) == Some(nodes1[p1].root));
    assert(has_parent(nodes2[c2]));
    let q = parent_of(nodes2[c2]);
    assert(0 <= q < nodes2.len());
    assert(nodes2[q].root == nodes2[p2].root);
    if q < p2 {
        assert(nodes2[q].root != nodes2[p2].root);
    } else if p2 < q {
        assert(nodes2[p2].root != nodes2[q].root);
    }
}

/// Law: the fork-choice descent depends only on the tree the nodes
/// describe, not on the order they were inserted in. Replicas whose stores
/// hold the same blocks under the same parents with the same accumulated
/// weights select the same head root from the same justified root, for the
/// tie-break is deterministic.
pub proof fn lemma_head_order_independent(
    nodes1: Seq<ForkNode>,
    nodes2: Seq<ForkNode>,
    i1: int,
    i2: int,
)
    requires
        parents_before(nodes1),
        roots_unique(nodes1),
        parents_before(nodes2),
        roots_unique(nodes2),
        same_tree(nodes1, nodes2),
        0 <= i1 < nodes1.len(),
        0 <= i2 < nodes2.len(),
        nodes1[i1].root == nodes2[i2].root,
    ensures
        nodes1[spec_head_from(nodes1, i1)].root == nodes2[spec_head_from(nodes2, i2)].root,
    decreases nodes1.len() - i1,
{
    if exists|c: int| is_best_child(nodes1, i1, c) {
        let c1 = choose|c: int| is_best_child(nodes1, i1, c);
        assert(is_child(nodes1, c1, i1));
        assert((i1 as int) < c1 < nodes1.len());
        assert(nodes_contain(nodes2, nodes1[c1].root));
        let c2 = choose|k: int| 0 <= k < nodes2.len() && nodes2[k].root == nodes1[c1].root;
        lemma_child_maps(nodes1, nodes2, c1, i1, c2, i2);
        // Every sibling of c2 maps back to a sibling of c1, so c2 is best.
        assert(is_best_child(nodes2, i2, c2)) by {
            assert forall|d2: int| is_child(nodes2, d2, i2) && d2 != c2 implies beats(
                nodes2[c2],
                nodes2[d2],
            ) by {
                assert(nodes_contain(nodes1, nodes2[d2].root));
                let d1 = choose|k: int| 0 <= k < nodes1.len() && nodes1[k].root == nodes2[d2].root;
                lemma_child_maps(nodes2, nodes1, d2, i2, d1, i1);
                assert(is_child(nodes1, d1, i1));
                assert(d1 != c1) by {
                    if d1 == c1 {
                        assert(nodes2[d2].root == nodes2[c2].root);
                        if d2 < c2 {
                            assert(nodes2[d2].root != nodes2[c2].root);
                        } else if c2 < d2 {
                            assert(nodes2[c2].root != nodes2[d2].root);
                        }
                    }
                }
                assert(beats(nodes1[c1], nodes1[d1]));
                assert(nodes1[c1].weight == nodes2[c2].weight);
                assert(nodes1[d1].weight == nodes2[d2].weight);
            }
        }
        let cc2 = choose|c: int| is_best_child(nodes2, i2, c);
        lemma_best_child_unique(nodes2, i2, cc2, c2);
        assert(spec_head_from(nodes1, i1) == spec_head_from(nodes1, c1));
        assert((i2 as int) < c2 < nodes2.len()) by {
            assert(parent_of(nodes2[c2]) == i2);
        }
        assert(spec_head_from(nodes2, i2) == spec_head_from(nodes2, c2));
        lemma_head_order_independent(nodes1, nodes2, c1, c2);
    } else {
        // A best child of the counterpart would map back to one here.
        assert(!(exists|c: int| is_best_child(nodes2, i2, c))) by {
            if exists|c: int| is_best_child(nodes2, i2, c) {
                let c2 = choose|c: int| is_best_child(nodes2, i2, c);
                assert(is_child(nodes2, c2, i2));
                assert(nodes_contain(nodes1, nodes2[c2].root));
                let c1 = choose|k: int| 0 <= k < nodes1.len() && nodes1[k].root == nodes2[c2].root;
                lemma_child_maps(nodes2, nodes1, c2, i2, c1, i1);
                assert(is_best_child(nodes1, i1, c1)) by {
                    assert forall|d1: int| is_child(nodes1, d1, i1) && d1 != c1 implies beats(
                        nodes1[c1],
                        nodes1[d1],
                    ) by {
                        assert(nodes_contain(nodes2, nodes1[d1].root));
                        let d2 = choose|k: int|
                            0 <= k < nodes2.len() && nodes2[k].root == nodes1[d1].root;
                        lemma_child_maps(nodes1, nodes2, d1, i1, d2, i2);
                        assert(d2 != c2) by {
                            if d2 == c2 {
                                assert(nodes1[d1].root == nodes1[c1].root);
                                if d1 < c1 {
                                    assert(nodes1[d1].root != nodes1[c1].root);
                                } else if c1 < d1 {
                                    assert(nodes1[c1].root != nodes1[d1].root);
                                }
                            }
                        }
                        assert(beats(nodes2[c2], nodes2[d2]));
                        assert(nodes1[c1].weight == nodes2[c2].weight);
                        assert(nodes1[d1].weight == nodes2[d2].weight);
                    }
                }
            }
        }
        assert(spec_head_from(nodes1, i1) == i1);
        assert(spec_head_from(nodes2, i2) == i2);
    }
}

/// Whether the block with root `r` descends from (or is) the block with
/// root `anc` (meaningful when roots are unique).
pub open spec fn descends_root(nodes: Seq<ForkNode>, r: u64, anc: u64) -> bool {
    nodes_contain(nodes, r) && nodes_contain(nodes, anc) && is_descendant_idx(
        nodes,
        node_index(nodes, r),
        node_index(nodes, anc),
    )
}

impl ForkChoice {
    /// Whether node `i` descends from node `j`, walking parent links.
    fn is_descendant_index(&self, i: usize, j: usize) -> (r: bool)
        requires
            parents_before(self.nodes@),
            i < self.nodes@.len(),
            j < self.nodes@.len(),
        ensures
            r == is_descendant_idx(self.nodes@, i as int, j as int),
    {
        let mut cur = i;
        loop
            invariant_except_break
                parents_before(self.nodes@),
                cur < self.nodes@.len(),
                is_descendant_idx(self.nodes@, i as int, j as int) == is_descendant_idx(
                    self.nodes@,
                    cur as int,
                    j as int,
                ),
            ensures
                ({
                    let r: bool = cur == j;
                    r == is_descendant_idx(self.nodes@, i as int, j as int)
                }),
            decreases cur,
        {
            if cur == j {
                break ;
            }
            match self.nodes[cur].parent {
                Some(p) => {
                    cur = p;
                },
                None => {
                    proof {
                        assert(!is_descendant_idx(self.nodes@, cur as int, j as int));
                    }
                    break ;
                },
            }
        }
        cur == j
    }

    /// Whether the block with root `r` descends from (or is) the block with
    /// root `ancestor`.
    pub fn is_descendant(&self, r: u64, ancestor: u64) -> (d: bool)
        requires
            self.wf(),
        ensures
            d == descends_root(self.nodes@, r, ancestor),
    {
        let i = match self.find_index(r) {
            Some(i) => i,
            None => {
                return false;
            },
        };
        let j = match self.find_index(ancestor) {
            Some(j) => j,
            None => {
                return false;
            },
        };
        proof {
            lemma_node_index(self.nodes@, r, i as int);
            lemma_node_index(self.nodes@, ancestor, j as int);
        }
        self.is_descendant_index(i, j)
    }

    /// Discard every node that neither lies on the path to the new
    /// finalized checkpoint nor descends from it; the leftover votes whose
    /// target was discarded are forgotten. Weights, slots and the surviving
    /// links are preserved.
    #[verifier::rlimit(100)]
    pub fn prune(&mut self, checkpoint: Checkpoint)
        requires
            old(self).wf(),
            nodes_contain(old(self).nodes@, checkpoint.root),
            checkpoint.epoch >= old(self).finalized.epoch,
        ensures
            final(self).wf(),
            final(self).justified == (if descends_root(
                old(self).nodes@,
                old(self).justified.root,
                checkpoint.root,
            ) {
                old(self).justified
            } else {
                checkpoint
            }),
            final(self).finalized == checkpoint,
            forall|r: u64|
                nodes_contain(final(self).nodes@, r) == on_finalized_path(
                    old(self).nodes@,
                    r,
                    checkpoint.root,
                ),
            forall|nk: int|
                0 <= nk < final(self).nodes@.len() ==> exists|k: int|
                    0 <= k < old(self).nodes@.len()
                        && old(self).nodes@[k].root == (#[trigger] final(self).nodes@[nk]).root
                        && old(self).nodes@[k].slot == final(self).nodes@[nk].slot
                        && old(self).nodes@[k].weight == final(self).nodes@[nk].weight,
            final(self).votes@.len() == old(self).votes@.len(),
            forall|v: int|
                0 <= v < old(self).votes@.len() ==> #[trigger] final(self).votes@[v] == (
                match old(self).votes@[v] {
                    Some(w) => if nodes_contain(final(self).nodes@, w.root) {
                        old(self).votes@[v]
                    } else {
                        None
                    },
                    None => None::<Vote>,
                }),
    {
        let cidx = match self.find_index(checkpoint.root) {
            Some(i) => i,
            None => {
                proof {
                    assert(false);
                }
                0
            },
        };
        proof {
            lemma_node_index(self.nodes@, checkpoint.root, cidx as int);
        }
        let jidx = match self.find_index(self.justified.root) {
            Some(i) => i,
            None => {
                proof {
                    assert(false);
                }
                0
            },
        };
        proof {
            lemma_node_index(self.nodes@, self.justified.root, jidx as int);
        }
        let keep_justified = self.is_descendant_index(jidx, cidx);
        proof {
            assert(keep_justified == descends_root(
                self.nodes@,
                self.justified.root,
                checkpoint.root,
            ));
        }
        if !keep_justified {
            self.justified = checkpoint;
        }
        let ghost orig = self.nodes@;
        let mut kept: Vec<ForkNode> = Vec::new();
        let mut remap: Vec<Option<usize>> = Vec::new();
        let ghost mut invmap: Seq<int> = Seq::empty();
        let mut i: usize = 0;
        while i < self.nodes.len()
            invariant
                parents_before(orig),
                roots_unique(orig),
                self.nodes@ == orig,
                cidx < orig.len(),
                orig[cidx as int].root == checkpoint.root,
                remap@.len() == i,
                0 <= i <= orig.len(),
                kept@.len() <= i,
                invmap.len() == kept@.len(),
                forall|k: int|
                    0 <= k < i ==> (match #[trigger] remap@[k] {
                        Some(nk) => path_idx(orig, k, cidx as int) && nk < kept@.len(),
                        None => !path_idx(orig, k, cidx as int),
                    }),
                forall|k: int|
                    0 <= k < i ==> (match #[trigger] remap@[k] {
                        Some(nk) => kept@[nk as int].root == orig[k].root && kept@[nk as int].slot
                            == orig[k].slot && kept@[nk as int].weight == orig[k].weight && (
                        !has_parent(orig[k]) ==> !has_parent(kept@[nk as int])) && (has_parent(
                            orig[k],
                        ) ==> has_parent(kept@[nk as int]) && 0 <= parent_of(kept@[nk as int]) < nk
                            && remap@[parent_of(orig[k])] == Some(
                            parent_of(kept@[nk as int]) as usize,
                        )),
                        None => true,
                    }),
                forall|nk: int|
                    0 <= nk < kept@.len() ==> {
                        let k = #[trigger] invmap[nk];
                        &&& 0 <= k < i
                        &&& (match remap@[k] {
                            Some(m) => m as int == nk,
                            None => false,
                        })
                    },
                forall|n1: int, n2: int|
                    0 <= n1 < n2 < kept@.len() ==> invmap[n1] < invmap[n2],
            decreases orig.len() - i,
        {
            let keep = self.is_descendant_index(i, cidx) || self.is_descendant_index(cidx, i);
            if keep {
                let n = self.nodes[i];
                let new_parent: Option<usize> = match n.parent {
                    None => None,
                    Some(p) => {
                        proof {
                            lemma_path_parent(orig, i as int, cidx as int);
                        }
                        match remap[p] {
                            Some(np) => Some(np),
                            None => {
                                proof {
                                    assert(path_idx(orig, p as int, cidx as int));
                                    assert(false);
                                }
                                None
                            },
                        }
                    },
                };
                remap.push(Some(kept.len()));
                kept.push(ForkNode { root: n.root, parent: new_parent, slot: n.slot, weight: n.weight });
                proof {
                    invmap = invmap.push(i as int);
                }
            } else {
                remap.push(None);
            }
            i = i + 1;
        }
        let ghost keptseq = kept@;
        self.nodes = kept;
        proof {
            // Surviving roots are exactly those on the path to the
            // checkpoint or descending from it.
            assert forall|r: u64|
                nodes_contain(keptseq, r) == on_finalized_path(orig, r, checkpoint.root) by {
                if nodes_contain(keptseq, r) {
                    let nk = choose|nk: int| 0 <= nk < keptseq.len() && keptseq[nk].root == r;
                    let k = invmap[nk];
                    assert(orig[k].root == r);
                    assert(path_idx(orig, k, cidx as int));
                    lemma_node_index(orig, r, k);
                    assert(node_index(orig, checkpoint.root) == cidx as int) by {
                        lemma_node_index(orig, checkpoint.root, cidx as int);
                    }
                    assert(on_finalized_path(orig, r, checkpoint.root));
                }
                if on_finalized_path(orig, r, checkpoint.root) {
                    let k = node_index(orig, r);
                    assert(0 <= k < orig.len() && orig[k].root == r);
                    assert(node_index(orig, checkpoint.root) == cidx as int) by {
                        lemma_node_index(orig, checkpoint.root, cidx as int);
                    }
                    assert(path_idx(orig, k, cidx as int));
                    match remap@[k] {
                        Some(nk) => {
                            assert(keptseq[nk as int].root == r);
                        },
                        None => {
                            assert(false);
                        },
                    }
                }
            }
            // Structure of the surviving tree.
            assert(parents_before(keptseq)) by {
                assert forall|nk: int|
                    0 <= nk < keptseq.len() && has_parent(#[trigger] keptseq[nk]) implies 0
                    <= parent_of(keptseq[nk]) < nk by {
                    let k = invmap[nk];
                    assert(match remap@[k] {
                        Some(m) => m as int == nk,
                        None => false,
                    });
                }
            }
            assert(roots_unique(keptseq)) by {
                assert forall|n1: int, n2: int|
                    0 <= n1 < n2 < keptseq.len() implies keptseq[n1].root != keptseq[n2].root by {
                    let k1 = invmap[n1];
                    let k2 = invmap[n2];
                    assert(k1 < k2);
                    assert(keptseq[n1].root == orig[k1].root);
                    assert(keptseq[n2].root == orig[k2].root);
                }
            }
            assert(nodes_contain(keptseq, checkpoint.root)) by {
                assert(is_descendant_idx(orig, cidx as int, cidx as int));
                assert(descends_root(orig, checkpoint.root, checkpoint.root)) by {
                    lemma_node_index(orig, checkpoint.root, cidx as int);
                }
            }
            assert(nodes_contain(keptseq, self.justified.root)) by {
                if keep_justified {
                    assert(descends_root(orig, old(self).justified.root, checkpoint.root));
                }
            }
            // Surviving nodes keep their data.
            assert forall|nk: int|
                0 <= nk < keptseq.len() implies exists|k: int|
                0 <= k < orig.len() && orig[k].root == (#[trigger] keptseq[nk]).root && orig[k].slot
                    == keptseq[nk].slot && orig[k].weight == keptseq[nk].weight by {
                let k = invmap[nk];
                assert(0 <= k < orig.len() && orig[k].root == keptseq[nk].root && orig[k].slot
                    == keptseq[nk].slot && orig[k].weight == keptseq[nk].weight);
            }
        }
        // Forget votes whose target was discarded.
        let ghost votes0 = self.votes@;
        let mut v: usize = 0;
        while v < self.votes.len()
            invariant
                parents_before(self.nodes@),
                roots_unique(self.nodes@),
                self.nodes@ == keptseq,
                self.justified == (if descends_root(
                    old(self).nodes@,
                    old(self).justified.root,
                    checkpoint.root,
                ) {
                    old(self).justified
                } else {
                    checkpoint
                }),
                self.finalized == old(self).finalized,
                nodes_contain(self.nodes@, self.justified.root),
                nodes_contain(self.nodes@, checkpoint.root),
                self.votes@.len() == votes0.len(),
                0 <= v <= votes0.len(),
                forall|t: int| v <= t < votes0.len() ==> #[trigger] self.votes@[t] == votes0[t],
                forall|t: int|
                    0 <= t < v ==> #[trigger] self.votes@[t] == (match votes0[t] {
                        Some(w) => if nodes_contain(keptseq, w.root) {
                            votes0[t]
                        } else {
                            None
                        },
                        None => None::<Vote>,
                    }),
            decreases votes0.len() - v,
        {
            match self.votes[v] {
                Some(w) => {
                    if !self.contains_block(w.root) {
                        self.votes.set(v, None);
                    }
                },
                None => {},
            }
            v = v + 1;
        }
        self.finalized = checkpoint;
        proof {
            assert(votes_known(self.nodes@, self.votes@)) by {
                assert forall|t: int|
                    0 <= t < self.votes@.len() implies match #[trigger] self.votes@[t] {
                    Some(w) => nodes_contain(self.nodes@, w.root),
                    None => true,
                } by {}
            }
        }
    }
}

/// Pin the index of a root when roots are unique.
pub proof fn lemma_node_index(nodes: Seq<ForkNode>, root: u64, i: int)
    requires
        0 <= i < nodes.len(),
        nodes[i].root == root,
        roots_unique(nodes),
    ensures
        node_index(nodes, root) == i,
{
    let j = node_index(nodes, root);
    assert(0 <= j < nodes.len() && nodes[j].root == root);
    if i < j {
        assert(nodes[i].root != nodes[j].root);
    } else if j < i {
        assert(nodes[j].root != nodes[i].root);
    }
}

} // verus!
