//! Chain facade: the public entry points that orchestrate verification,
//! state transition, fork choice, caches and the bounded-wait lock.
//!
//! Candidate blocks are verified and transitioned entirely outside the
//! lock; only the final commit — fork choice, head tracker and head pointer
//! — runs under the write side, so acceptance is all-or-nothing from every
//! other component's viewpoint.

use vstd::prelude::*;
use crate::primitives::{
    Attestation, Block, Checkpoint, block_root_of, body_root_of, compute_block_root, mix,
};
use crate::state::{
    State, apply_block_body, clone_state, compute_state_root, post_state_root, process_slots,
    state_root_of, with_deposits, with_slashings,
};
use crate::fork_choice::{
    AttestationOutcome, ForkChoice, ForkNode, attestation_weights, descends_root, has_child,
    has_parent, is_descendant_idx, lemma_attestation_weights_frame, lemma_node_index, node_index,
    nodes_contain, on_finalized_path, parent_of, spec_head_from, vote_stale, votes_extended, Vote,
};
use crate::head_tracker::{HeadTracker, pruned_heads, roots_contain};
use crate::snapshot_cache::{
    Snapshot, SnapshotCache, lemma_spec_position, snapshots_contain, spec_position,
};
use crate::validator_pubkey_cache::{ValidatorPubkeyCache, ingested};
use crate::block_verification::{
    AttestationProcessingOutcome, BlockError, BlockProcessingOutcome, attestation_sig_ok,
    body_signatures_ok, partial_verdict, partial_verify, verify_attestation_signature,
    verify_body_signatures,
};
use crate::timeout_rw_lock::{TimeoutRwLock, write_blocked};

verus! {

/// Resource-level failures surfaced by the facade: they are recoverable and
/// never corrupt the chain.
#[derive(Clone, Copy, PartialEq, Eq, Structural, Debug)]
pub enum ChainError {
    /// A bounded-wait lock acquisition expired.
    LockTimeout,
    /// No cached state at or below the requested slot.
    StateUnavailable,
}

/// The mutable aggregate guarded by the bounded-wait lock.
pub struct ChainCore {
    pub fork_choice: ForkChoice,
    pub head_tracker: HeadTracker,
    pub head_root: u64,
}

/// Two states that hold the same values in every field.
pub open spec fn state_equiv(a: State, b: State) -> bool {
    &&& a.slot == b.slot
    &&& a.randao == b.randao
    &&& a.validators@ == b.validators@
    &&& a.history@ == b.history@
    &&& a.justified == b.justified
    &&& a.finalized == b.finalized
}

/// Every registered block has a durable snapshot whose slots agree with the
/// fork-choice node.
pub open spec fn store_covers(nodes: Seq<ForkNode>, store: Seq<Snapshot>) -> bool {
    forall|i: int|
        0 <= i < nodes.len() ==> exists|j: int|
            0 <= j < store.len() && (#[trigger] store[j]).block_root == (
            #[trigger] nodes[i]).root && store[j].slot == nodes[i].slot && store[j].state.slot
                == nodes[i].slot
}

/// Every cached snapshot agrees with the durable copy of the same block.
pub open spec fn cache_consistent(cache: Seq<Snapshot>, store: Seq<Snapshot>) -> bool {
    forall|i: int|
        0 <= i < cache.len() ==> exists|j: int|
            0 <= j < store.len() && (#[trigger] store[j]).block_root == (
            #[trigger] cache[i]).block_root && store[j].slot == cache[i].slot && state_equiv(
                store[j].state,
                cache[i].state,
            )
}

/// The durable state recorded for a block root.
pub open spec fn stored_state(store: Seq<Snapshot>, root: u64) -> State {
    store[spec_position(store, root)].state
}

/// The block-import and fork-choice core.
pub struct BeaconChain {
    /// Fork choice, head tracker and head pointer, under the write lock.
    pub shared: TimeoutRwLock<ChainCore>,
    /// Bounded hot cache of recent snapshots.
    pub snapshot_cache: SnapshotCache,
    /// Append-only validator registry.
    pub pubkey_cache: ValidatorPubkeyCache,
    /// Snapshot of the current canonical head, for cheap reads.
    pub head_snapshot: Snapshot,
    /// Durable snapshot storage (the persistence collaborator, modelled).
    pub store: SnapshotCache,
    /// Roots of blocks persisted so far, in acceptance order.
    pub stored_blocks: Vec<u64>,
    /// Slots that had to be reprocessed for the latest import because the
    /// parent's state was not in the hot cache.
    pub last_replay_slots: u64,
}

/// Observable chain data unchanged (the replay counter aside).
pub open spec fn chain_preserved(a: BeaconChain, b: BeaconChain) -> bool {
    &&& b.shared.readers == a.shared.readers
    &&& b.shared.writer == a.shared.writer
    &&& b.shared.value.fork_choice.nodes@ == a.shared.value.fork_choice.nodes@
    &&& b.shared.value.fork_choice.votes@ == a.shared.value.fork_choice.votes@
    &&& b.shared.value.fork_choice.justified == a.shared.value.fork_choice.justified
    &&& b.shared.value.fork_choice.finalized == a.shared.value.fork_choice.finalized
    &&& b.shared.value.head_tracker.heads@ == a.shared.value.head_tracker.heads@
    &&& b.shared.value.head_root == a.shared.value.head_root
    &&& b.snapshot_cache.snapshots@ == a.snapshot_cache.snapshots@
    &&& b.snapshot_cache.capacity == a.snapshot_cache.capacity
    &&& b.pubkey_cache.pubkeys@ == a.pubkey_cache.pubkeys@
    &&& b.store.snapshots@ == a.store.snapshots@
    &&& b.store.capacity == a.store.capacity
    &&& b.stored_blocks@ == a.stored_blocks@
    &&& b.head_snapshot.block_root == a.head_snapshot.block_root
    &&& b.head_snapshot.slot == a.head_snapshot.slot
    &&& state_equiv(b.head_snapshot.state, a.head_snapshot.state)
}

/// Why a candidate block is rejected, if it is: the cheap checks in order,
/// then the state-root comparison against the transition of the parent's
/// durable state, then the body's aggregate signatures.
pub open spec fn import_error(c: BeaconChain, b: Block, now: u64) -> Option<BlockError> {
    let nodes = c.shared.value.fork_choice.nodes@;
    let keys = c.pubkey_cache.pubkeys@;
    match partial_verdict(nodes, c.shared.value.fork_choice.finalized, b, now, keys) {
        Err(e) => Some(e),
        Ok(u) => {
            let pre = stored_state(c.store.snapshots@, b.parent_root);
            if post_state_root(pre, b) != b.state_root {
                Some(BlockError::StateRootMismatch)
            } else if !body_signatures_ok(b.attestations@, keys) {
                Some(BlockError::SignatureInvalid)
            } else {
                None
            }
        },
    }
}

/// `s` holds exactly the fields the transition yields from `pre` and `b`.
pub open spec fn post_state_matches(s: State, pre: State, b: Block) -> bool {
    &&& s.slot == b.slot
    &&& s.randao == mix(pre.randao, b.randao)
    &&& s.validators@ == with_slashings(with_deposits(pre.validators@, b.deposits@), b.slashings@)
    &&& s.history@ == pre.history@.push(body_root_of(b))
    &&& s.justified == pre.justified
    &&& s.finalized == pre.finalized
}

/// Index of the nearest ancestor of node `i` (the node itself included)
/// whose state sits in the hot cache, or the chain's root node when none
/// does: the replay distance is measured against it.
pub open spec fn replay_anchor(nodes: Seq<ForkNode>, cache: Seq<Snapshot>, i: int) -> int
    decreases i,
{
    if 0 <= i < nodes.len() {
        if snapshots_contain(cache, nodes[i].root) {
            i
        } else if has_parent(nodes[i]) && 0 <= parent_of(nodes[i]) < i {
            replay_anchor(nodes, cache, parent_of(nodes[i]))
        } else {
            i
        }
    } else {
        i
    }
}

/// Everything an accepted import changes, and nothing else: the block is
/// registered under its parent with weight zero, the leaf set and head
/// pointer are updated, the post-state enters the hot cache and durable
/// storage, the registry ingests the new validators, the block root is
/// persisted, and the replay counter records the distance to the snapshot
/// the pre-state came from.
pub open spec fn accepted_import(pre: BeaconChain, post: BeaconChain, b: Block) -> bool {
    let root = block_root_of(b);
    let nodes0 = pre.shared.value.fork_choice.nodes@;
    let nodes1 = post.shared.value.fork_choice.nodes@;
    let parent_state = stored_state(pre.store.snapshots@, b.parent_root);
    &&& nodes1 == nodes0.push(
        ForkNode {
            root,
            parent: Some(node_index(nodes0, b.parent_root) as usize),
            slot: b.slot,
            weight: 0,
        },
    )
    &&& post.shared.value.fork_choice.votes@ == pre.shared.value.fork_choice.votes@
    &&& post.shared.value.fork_choice.justified == pre.shared.value.fork_choice.justified
    &&& post.shared.value.fork_choice.finalized == pre.shared.value.fork_choice.finalized
    &&& (forall|h: u64|
        roots_contain(post.shared.value.head_tracker.heads@, h) == ((roots_contain(
            pre.shared.value.head_tracker.heads@,
            h,
        ) && h != b.parent_root) || h == root))
    &&& post.shared.value.head_root == nodes1[spec_head_from(
        nodes1,
        node_index(nodes1, post.shared.value.fork_choice.justified.root),
    )].root
    &&& post.stored_blocks@ == pre.stored_blocks@.push(root)
    &&& post.pubkey_cache.pubkeys@ == ingested(
        pre.pubkey_cache.pubkeys@,
        with_slashings(with_deposits(parent_state.validators@, b.deposits@), b.slashings@),
    )
    &&& snapshots_contain(post.snapshot_cache.snapshots@, root)
    &&& snapshots_contain(post.store.snapshots@, root)
    &&& (snapshots_contain(pre.snapshot_cache.snapshots@, b.parent_root) ==> post.last_replay_slots
        == 0)
    &&& (!snapshots_contain(pre.snapshot_cache.snapshots@, b.parent_root) ==> ({
        let pidx = node_index(nodes0, b.parent_root);
        let anchor = replay_anchor(nodes0, pre.snapshot_cache.snapshots@, pidx);
        post.last_replay_slots == if nodes0[pidx].slot >= nodes0[anchor].slot {
            (nodes0[pidx].slot - nodes0[anchor].slot) as u64
        } else {
            0
        }
    }))
    &&& (post.shared.value.head_root == root ==> post.head_snapshot.block_root == root
        && post.head_snapshot.slot == b.slot && post_state_matches(
        post.head_snapshot.state,
        parent_state,
        b,
    ))
    &&& (post.shared.value.head_root != root ==> post.head_snapshot.block_root
        == pre.head_snapshot.block_root && post.head_snapshot.slot == pre.head_snapshot.slot
        && state_equiv(post.head_snapshot.state, pre.head_snapshot.state))
    &&& post.snapshot_cache.capacity == pre.snapshot_cache.capacity
    &&& post.store.capacity == pre.store.capacity
    &&& post.shared.readers == pre.shared.readers
    &&& post.shared.writer == pre.shared.writer
}

/// One import step under a free lock: the outcome reported and the chain
/// change, rejected or accepted, exactly as `process_block` performs it.
pub open spec fn import_step(
    pre: BeaconChain,
    post: BeaconChain,
    b: Block,
    out: BlockProcessingOutcome,
    now: u64,
) -> bool {
    match import_error(pre, b, now) {
        Some(e) => out == (BlockProcessingOutcome::Invalid { error: e }) && chain_preserved(
            pre,
            post,
        ),
        None => accepted_import(pre, post, b) && out == (BlockProcessingOutcome::Valid {
            block_root: block_root_of(b),
            is_new_head: post.shared.value.head_root == block_root_of(b),
        }),
    }
}

/// No room for one more node or snapshot: a batch import stops here.
pub open spec fn capacity_edge(c: BeaconChain) -> bool {
    c.shared.value.fork_choice.nodes@.len() >= usize::MAX - 1 || c.store.snapshots@.len()
        >= usize::MAX - 1
}

/// The batch-import relation: the blocks are imported in order, each step
/// exactly one `import_step`; the run stops at the first rejected block
/// (whose outcome is still reported) or when capacity runs out, and the
/// blocks after the stop are untouched.
pub open spec fn segment_imports(
    pre: BeaconChain,
    post: BeaconChain,
    blocks: Seq<Block>,
    outs: Seq<BlockProcessingOutcome>,
    now: u64,
) -> bool
    decreases blocks.len(),
{
    if blocks.len() == 0 {
        outs.len() == 0 && post == pre
    } else if capacity_edge(pre) {
        outs.len() == 0 && post == pre
    } else {
        match import_error(pre, blocks[0], now) {
            Some(e) => outs.len() == 1 && outs[0] == (BlockProcessingOutcome::Invalid { error: e })
                && chain_preserved(pre, post),
            None => exists|mid: BeaconChain|
                {
                    &&& #[trigger] accepted_import(pre, mid, blocks[0])
                    &&& outs.len() >= 1
                    &&& outs[0] == (BlockProcessingOutcome::Valid {
                        block_root: block_root_of(blocks[0]),
                        is_new_head: mid.shared.value.head_root == block_root_of(blocks[0]),
                    })
                    &&& segment_imports(mid, post, blocks.drop_first(), outs.drop_first(), now)
                },
        }
    }
}

/// Appending one more step to a run in which every block so far was
/// accepted.
proof fn lemma_segment_append(
    pre: BeaconChain,
    mid: BeaconChain,
    post: BeaconChain,
    bs: Seq<Block>,
    outs: Seq<BlockProcessingOutcome>,
    b: Block,
    out: BlockProcessingOutcome,
    now: u64,
)
    requires
        segment_imports(pre, mid, bs, outs, now),
        outs.len() == bs.len(),
        forall|k: int|
            0 <= k < outs.len() ==> (#[trigger] outs[k]) matches BlockProcessingOutcome::Valid {
                ..
            },
        !capacity_edge(mid),
        import_step(mid, post, b, out, now),
    ensures
        segment_imports(pre, post, bs.push(b), outs.push(out), now),
    decreases bs.len(),
{
    assert(bs.push(b).len() > 0);
    assert(bs.push(b)[0] == if bs.len() == 0 {
        b
    } else {
        bs[0]
    });
    if bs.len() == 0 {
        assert(mid == pre);
        assert(bs.push(b).drop_first() =~= Seq::<Block>::empty());
        assert(outs.push(out).drop_first() =~= Seq::<BlockProcessingOutcome>::empty());
        match import_error(pre, b, now) {
            Some(e) => {
                assert(outs.push(out)[0] == out);
            },
            None => {
                assert(accepted_import(pre, post, b));
                assert(segment_imports(
                    post,
                    post,
                    bs.push(b).drop_first(),
                    outs.push(out).drop_first(),
                    now,
                ));
                assert(outs.push(out)[0] == out);
            },
        }
    } else {
        assert(!capacity_edge(pre)) by {
            if capacity_edge(pre) {
                assert(outs.len() == 0);
            }
        }
        assert(outs[0] matches BlockProcessingOutcome::Valid { .. });
        match import_error(pre, bs[0], now) {
            Some(e) => {
                assert(outs[0] == (BlockProcessingOutcome::Invalid { error: e }));
                assert(false);
            },
            None => {},
        }
        let mid1 = choose|m: BeaconChain|
            {
                &&& #[trigger] accepted_import(pre, m, bs[0])
                &&& outs.len() >= 1
                &&& outs[0] == (BlockProcessingOutcome::Valid {
                    block_root: block_root_of(bs[0]),
                    is_new_head: m.shared.value.head_root == block_root_of(bs[0]),
                })
                &&& segment_imports(m, mid, bs.drop_first(), outs.drop_first(), now)
            };
        assert({
            &&& accepted_import(pre, mid1, bs[0])
            &&& segment_imports(mid1, mid, bs.drop_first(), outs.drop_first(), now)
        });
        assert(forall|k: int|
            0 <= k < outs.drop_first().len() ==> (#[trigger] outs.drop_first()[k]) matches
                BlockProcessingOutcome::Valid { .. }) by {
            assert(forall|k: int|
                0 <= k < outs.drop_first().len() ==> outs.drop_first()[k] == outs[k + 1]);
        }
        lemma_segment_append(mid1, mid, post, bs.drop_first(), outs.drop_first(), b, out, now);
        assert(bs.push(b).drop_first() =~= bs.drop_first().push(b));
        assert(outs.push(out).drop_first() =~= outs.drop_first().push(out));
        assert(segment_imports(mid1, post, bs.push(b).drop_first(), outs.push(out).drop_first(), now));
        assert(outs.push(out)[0] == outs[0]);
    }
}

/// A run that has stopped — at a rejected block or at the capacity edge —
/// ignores every block that follows.
proof fn lemma_segment_extend(
    pre: BeaconChain,
    mid: BeaconChain,
    bs: Seq<Block>,
    outs: Seq<BlockProcessingOutcome>,
    rest: Seq<Block>,
    now: u64,
)
    requires
        segment_imports(pre, mid, bs, outs, now),
        (capacity_edge(mid) && outs.len() == bs.len() && (forall|k: int|
            0 <= k < outs.len() ==> (#[trigger] outs[k]) matches BlockProcessingOutcome::Valid {
                ..
            })) || (outs.len() >= 1 && outs[outs.len() - 1] matches
            BlockProcessingOutcome::Invalid { .. }),
    ensures
        segment_imports(pre, mid, bs + rest, outs, now),
    decreases bs.len(),
{
    if rest.len() == 0 {
        assert(bs + rest =~= bs);
    } else if bs.len() == 0 {
        assert(mid == pre);
        assert(outs.len() == 0);
        assert(capacity_edge(pre));
        assert(bs + rest =~= rest);
    } else {
        assert(!capacity_edge(pre) || outs.len() == 0);
        if capacity_edge(pre) {
            // A stopped-at-capacity prefix with blocks left is impossible
            // under the terminal condition.
            assert(outs.len() == 0);
            assert(false);
        } else {
            assert((bs + rest)[0] == bs[0]);
            match import_error(pre, bs[0], now) {
                Some(e) => {
                },
                None => {
                    let mid1 = choose|m: BeaconChain|
                        {
                            &&& #[trigger] accepted_import(pre, m, bs[0])
                            &&& outs.len() >= 1
                            &&& outs[0] == (BlockProcessingOutcome::Valid {
                                block_root: block_root_of(bs[0]),
                                is_new_head: m.shared.value.head_root == block_root_of(bs[0]),
                            })
                            &&& segment_imports(m, mid, bs.drop_first(), outs.drop_first(), now)
                        };
                    assert(segment_imports(mid1, mid, bs.drop_first(), outs.drop_first(), now));
                    assert(outs.len() >= 2 || !(outs[0] matches BlockProcessingOutcome::Invalid {
                        ..
                    }));
                    assert(forall|k: int|
                        0 <= k < outs.drop_first().len() ==> outs.drop_first()[k] == outs[k + 1]);
                    lemma_segment_extend(mid1, mid, bs.drop_first(), outs.drop_first(), rest, now);
                    assert((bs + rest).drop_first() =~= bs.drop_first() + rest);
                },
            }
        }
    }
}

impl BeaconChain {
    /// Structural well-formedness of the whole chain.
    pub open spec fn wf(self) -> bool {
        &&& self.shared.value.fork_choice.wf()
        &&& self.shared.value.head_tracker.wf()
        &&& self.snapshot_cache.wf()
        &&& self.store.wf()
        &&& self.store.capacity == usize::MAX
        &&& store_covers(self.shared.value.fork_choice.nodes@, self.store.snapshots@)
        &&& cache_consistent(self.snapshot_cache.snapshots@, self.store.snapshots@)
    }

    /// Build a chain from its genesis state. The genesis block root is the
    /// genesis state's own root.
    pub fn new(genesis_state: State, snapshot_capacity: usize) -> (r: Self)
        requires
            snapshot_capacity >= 1,
        ensures
            r.wf(),
            r.shared.readers == 0 && !r.shared.writer,
            r.shared.value.fork_choice.nodes@.len() == 1,
            r.shared.value.fork_choice.nodes@[0].root == state_root_of(genesis_state),
            r.shared.value.fork_choice.justified.root == state_root_of(genesis_state),
            r.shared.value.fork_choice.finalized.root == state_root_of(genesis_state),
            r.shared.value.head_root == state_root_of(genesis_state),
            roots_contain(r.shared.value.head_tracker.heads@, state_root_of(genesis_state)),
            r.pubkey_cache.pubkeys@ == ingested(Seq::<u64>::empty(), genesis_state.validators@),
            r.last_replay_slots == 0,
            r.stored_blocks@ =~= seq![state_root_of(genesis_state)],
            r.snapshot_cache.capacity == snapshot_capacity,
            r.store.snapshots@.len() == 1,
            r.store.snapshots@[0].block_root == state_root_of(genesis_state),
            r.store.snapshots@[0].slot == genesis_state.slot,
            state_equiv(r.store.snapshots@[0].state, genesis_state),
            r.snapshot_cache.snapshots@.len() == 1,
            r.snapshot_cache.snapshots@[0].block_root == state_root_of(genesis_state),
            r.snapshot_cache.snapshots@[0].slot == genesis_state.slot,
            state_equiv(r.snapshot_cache.snapshots@[0].state, genesis_state),
            r.head_snapshot.block_root == state_root_of(genesis_state),
            r.head_snapshot.slot == genesis_state.slot,
            state_equiv(r.head_snapshot.state, genesis_state),
    {
        let genesis_root = compute_state_root(&genesis_state);
        let fork_choice = ForkChoice::new(genesis_root, genesis_state.slot);
        let head_tracker = HeadTracker::new(genesis_root);
        let mut pubkey_cache = ValidatorPubkeyCache::new();
        pubkey_cache.ingest(&genesis_state);
        let mut store = SnapshotCache::new(usize::MAX);
        let durable = clone_state(&genesis_state);
        let ghost genesis_slot = genesis_state.slot;
        store.insert(Snapshot { block_root: genesis_root, slot: genesis_state.slot, state: durable });
        let mut snapshot_cache = SnapshotCache::new(snapshot_capacity);
        let hot = clone_state(&genesis_state);
        snapshot_cache.insert(Snapshot { block_root: genesis_root, slot: genesis_state.slot, state: hot });
        let mut stored_blocks: Vec<u64> = Vec::new();
        stored_blocks.push(genesis_root);
        let head_slot = genesis_state.slot;
        let head_snapshot = Snapshot {
            block_root: genesis_root,
            slot: head_slot,
            state: genesis_state,
        };
        let core = ChainCore { fork_choice, head_tracker, head_root: genesis_root };
        let r = BeaconChain {
            shared: TimeoutRwLock::new(core),
            snapshot_cache,
            pubkey_cache,
            head_snapshot,
            store,
            stored_blocks,
            last_replay_slots: 0,
        };
        proof {
            assert(r.store.snapshots@.len() == 1);
            assert(r.store.snapshots@[0].block_root == genesis_root);
            assert(store_covers(r.shared.value.fork_choice.nodes@, r.store.snapshots@));
            assert(r.snapshot_cache.snapshots@.len() == 1);
            assert(cache_consistent(r.snapshot_cache.snapshots@, r.store.snapshots@));
            assert(r.shared.value.head_tracker.heads@[0] == genesis_root);
        }
        r
    }

    /// Full block import: cheap checks, state transition and batch
    /// signature verification outside the lock, then an all-or-nothing
    /// commit under the write side. A rejected block leaves no observable
    /// mutation; an accepted one is registered in fork choice, the head
    /// tracker, the caches and durable storage, and the head pointer is
    /// recomputed.
    pub fn process_block(&mut self, block: Block, now: u64) -> (r: Result<
        BlockProcessingOutcome,
        ChainError,
    >)
        requires
            old(self).wf(),
            old(self).shared.value.fork_choice.nodes@.len() < usize::MAX,
            old(self).store.snapshots@.len() < usize::MAX,
        ensures
            final(self).wf(),
            write_blocked(old(self).shared) ==> r == Err::<BlockProcessingOutcome, ChainError>(
                ChainError::LockTimeout,
            ) && chain_preserved(*old(self), *final(self)),
            !write_blocked(old(self).shared) ==> match import_error(*old(self), block, now) {
                Some(e) => r == Ok::<BlockProcessingOutcome, ChainError>(
                    BlockProcessingOutcome::Invalid { error: e },
                ) && chain_preserved(*old(self), *final(self)),
                None => {
                    &&& accepted_import(*old(self), *final(self), block)
                    &&& r == Ok::<BlockProcessingOutcome, ChainError>(
                        BlockProcessingOutcome::Valid {
                            block_root: block_root_of(block),
                            is_new_head: final(self).shared.value.head_root == block_root_of(
                                block,
                            ),
                        },
                    )
                },
            },
    {
        if self.shared.writer || self.shared.readers > 0 {
            return Err(ChainError::LockTimeout);
        }
        // Cheap, side-effect-free checks first.
        match partial_verify(&self.shared.value.fork_choice, &block, now, &self.pubkey_cache) {
            Err(e) => {
                return Ok(BlockProcessingOutcome::Invalid { error: e });
            },
            Ok(u) => {},
        }
        let ghost nodes0 = self.shared.value.fork_choice.nodes@;
        let ghost store0 = self.store.snapshots@;
        // Resolve the pre-state: exact hot-cache hit, else measure the
        // replay distance to the nearest cached ancestor and fall back to
        // the durable snapshot of the parent.
        let parent_idx = match self.shared.value.fork_choice.find_index(block.parent_root) {
            Some(i) => i,
            None => {
                proof {
                    assert(false);
                }
                0
            },
        };
        proof {
            lemma_node_index(nodes0, block.parent_root, parent_idx as int);
        }
        let pre: State;
        match self.snapshot_cache.position(block.parent_root) {
            Some(ci) => {
                pre = clone_state(&self.snapshot_cache.snapshots[ci].state);
                self.last_replay_slots = 0;
                proof {
                    let c = self.snapshot_cache.snapshots@[ci as int];
                    let j = choose|j: int|
                        0 <= j < store0.len() && (#[trigger] store0[j]).block_root == c.block_root
                            && store0[j].slot == c.slot && state_equiv(store0[j].state, c.state);
                    lemma_spec_position(store0, block.parent_root, j);
                    assert(state_equiv(pre, stored_state(store0, block.parent_root)));
                }
            },
            None => {
                // Walk ancestors to find how far the nearest cached state is.
                let ghost cache0 = self.snapshot_cache.snapshots@;
                let mut cur = parent_idx;
                loop
                    invariant_except_break
                        self.wf(),
                        cur < self.shared.value.fork_choice.nodes@.len(),
                        self.shared.value.fork_choice.nodes@ == nodes0,
                        self.snapshot_cache.snapshots@ == cache0,
                        replay_anchor(nodes0, cache0, parent_idx as int) == replay_anchor(
                            nodes0,
                            cache0,
                            cur as int,
                        ),
                    ensures
                        cur < nodes0.len(),
                        self.shared.value.fork_choice.nodes@ == nodes0,
                        self.snapshot_cache.snapshots@ == cache0,
                        self.wf(),
                        cur as int == replay_anchor(nodes0, cache0, parent_idx as int),
                    decreases cur,
                {
                    let r = self.shared.value.fork_choice.nodes[cur].root;
                    match self.snapshot_cache.position(r) {
                        Some(x) => {
                            proof {
                                assert(snapshots_contain(cache0, nodes0[cur as int].root)) by {
                                    assert(cache0[x as int].block_root == nodes0[cur as int].root);
                                }
                                assert(replay_anchor(nodes0, cache0, cur as int) == cur as int);
                            }
                            break ;
                        },
                        None => {},
                    }
                    match self.shared.value.fork_choice.nodes[cur].parent {
                        Some(p) => {
                            proof {
                                assert(replay_anchor(nodes0, cache0, cur as int) == replay_anchor(
                                    nodes0,
                                    cache0,
                                    p as int,
                                ));
                            }
                            cur = p;
                        },
                        None => {
                            proof {
                                assert(replay_anchor(nodes0, cache0, cur as int) == cur as int);
                            }
                            break ;
                        },
                    }
                }
                let parent_slot = self.shared.value.fork_choice.nodes[parent_idx].slot;
                let anchor_slot = self.shared.value.fork_choice.nodes[cur].slot;
                self.last_replay_slots = if parent_slot >= anchor_slot {
                    parent_slot - anchor_slot
                } else {
                    0
                };
                let si = match self.store.position(block.parent_root) {
                    Some(i) => i,
                    None => {
                        proof {
                            assert(snapshots_contain(store0, block.parent_root)) by {
                                let j = choose|j: int|
                                    0 <= j < store0.len() && (#[trigger] store0[j]).block_root
                                        == nodes0[parent_idx as int].root && store0[j].slot
                                        == nodes0[parent_idx as int].slot && store0[j].state.slot
                                        == nodes0[parent_idx as int].slot;
                            }
                            assert(false);
                        }
                        0
                    },
                };
                pre = clone_state(&self.store.snapshots[si].state);
                proof {
                    lemma_spec_position(store0, block.parent_root, si as int);
                    assert(state_equiv(pre, stored_state(store0, block.parent_root)));
                }
            },
        }
        proof {
            // The resolved pre-state's slot is the parent's slot, which the
            // partial checks put strictly below the block's.
            let sp = spec_position(store0, block.parent_root);
            assert(store0[sp].state.slot == nodes0[parent_idx as int].slot) by {
                let j = choose|j: int|
                    0 <= j < store0.len() && (#[trigger] store0[j]).block_root
                        == nodes0[parent_idx as int].root && store0[j].slot
                        == nodes0[parent_idx as int].slot && store0[j].state.slot
                        == nodes0[parent_idx as int].slot;
                lemma_spec_position(store0, block.parent_root, j);
            }
            assert(pre.slot < block.slot);
        }
        // Deterministic transition, outside any lock.
        let mut post = pre;
        let ghost pre_model = stored_state(store0, block.parent_root);
        process_slots(&mut post, block.slot);
        apply_block_body(&mut post, &block);
        let post_root = compute_state_root(&post);
        proof {
            assert(post_root == post_state_root(pre_model, block));
        }
        if post_root != block.state_root {
            return Ok(BlockProcessingOutcome::Invalid { error: BlockError::StateRootMismatch });
        }
        if !verify_body_signatures(&block, &self.pubkey_cache) {
            return Ok(BlockProcessingOutcome::Invalid { error: BlockError::SignatureInvalid });
        }
        // Commit, all-or-nothing, under the write side.
        let root = compute_block_root(&block);
        match self.shared.acquire_write() {
            Ok(u) => {},
            Err(e) => {
                proof {
                    assert(false);
                }
                return Err(ChainError::LockTimeout);
            },
        }
        self.shared.value.fork_choice.on_block(root, block.parent_root, block.slot);
        self.shared.value.head_tracker.on_new_child(block.parent_root);
        self.shared.value.head_tracker.on_block(root);
        let new_head = self.shared.value.fork_choice.get_head();
        let is_new_head = new_head == root;
        self.shared.value.head_root = new_head;
        self.shared.release_write();
        // Caches and durable storage use their own synchronization.
        self.pubkey_cache.ingest(&post);
        self.stored_blocks.push(root);
        let ghost store_mid = self.store.snapshots@;
        let durable = clone_state(&post);
        self.store.insert(Snapshot { block_root: root, slot: block.slot, state: durable });
        if is_new_head {
            let head_state = clone_state(&post);
            self.head_snapshot = Snapshot { block_root: root, slot: block.slot, state: head_state };
        }
        let ghost cache_mid = self.snapshot_cache.snapshots@;
        let ghost store1 = self.store.snapshots@;
        self.snapshot_cache.insert(Snapshot { block_root: root, slot: block.slot, state: post });
        proof {
            let nodes1 = self.shared.value.fork_choice.nodes@;
            // The durable storage covers the grown tree.
            assert(store_covers(nodes1, store1)) by {
                assert forall|i: int| 0 <= i < nodes1.len() implies exists|j: int|
                    0 <= j < store1.len() && (#[trigger] store1[j]).block_root == (
                    #[trigger] nodes1[i]).root && store1[j].slot == nodes1[i].slot
                        && store1[j].state.slot == nodes1[i].slot by {
                    if i < nodes0.len() {
                        assert(nodes1[i] == nodes0[i]);
                        let j = choose|j: int|
                            0 <= j < store_mid.len() && (#[trigger] store_mid[j]).block_root
                                == nodes0[i].root && store_mid[j].slot == nodes0[i].slot
                                && store_mid[j].state.slot == nodes0[i].slot;
                        if snapshots_contain(store_mid, root) {
                            let p = spec_position(store_mid, root);
                            if j == p {
                                assert(nodes0[i].root == root);
                                assert(nodes_contain(nodes0, root));
                                assert(false);
                            }
                            assert(store1[j] == store_mid[j]);
                        } else {
                            assert(store1[j] == store_mid[j]);
                        }
                    } else {
                        assert(nodes1[i].root == root);
                        if snapshots_contain(store_mid, root) {
                            let p = spec_position(store_mid, root);
                            assert(store1[p].block_root == root && store1[p].slot == block.slot
                                && store1[p].state.slot == block.slot);
                        } else {
                            let j = store_mid.len() as int;
                            assert(store1[j].block_root == root && store1[j].slot == block.slot
                                && store1[j].state.slot == block.slot);
                        }
                    }
                }
            }
            // The hot cache stays consistent with the durable storage.
            assert(cache_consistent(self.snapshot_cache.snapshots@, store1)) by {
                assert forall|i: int| 0 <= i < self.snapshot_cache.snapshots@.len() implies exists|
                    j: int,
                |
                    0 <= j < store1.len() && (#[trigger] store1[j]).block_root == (
                    #[trigger] self.snapshot_cache.snapshots@[i]).block_root && store1[j].slot
                        == self.snapshot_cache.snapshots@[i].slot && state_equiv(
                        store1[j].state,
                        self.snapshot_cache.snapshots@[i].state,
                    ) by {
                    let c = self.snapshot_cache.snapshots@[i];
                    if c.block_root == root && c.slot == block.slot && state_equiv(c.state, post) {
                        if snapshots_contain(store_mid, root) {
                            let p = spec_position(store_mid, root);
                            assert(store1[p].block_root == root && store1[p].slot == block.slot
                                && state_equiv(store1[p].state, post));
                        } else {
                            let j = store_mid.len() as int;
                            assert(store1[j].block_root == root && store1[j].slot == block.slot
                                && state_equiv(store1[j].state, post));
                        }
                    } else {
                        // An entry surviving from before the insert; the
                        // new root cannot survive here, since the insert
                        // replaced any entry bearing it.
                        let snew = Snapshot { block_root: root, slot: block.slot, state: post };
                        assert(exists|k: int|
                            0 <= k < cache_mid.len() && #[trigger] cache_mid[k] == c
                                && cache_mid[k].block_root != root) by {
                            if snapshots_contain(cache_mid, root) {
                                let q = spec_position(cache_mid, root);
                                assert(self.snapshot_cache.snapshots@ == cache_mid.update(q, snew));
                                assert(i != q) by {
                                    if i == q {
                                        assert(c == snew);
                                        assert(state_equiv(c.state, post));
                                    }
                                }
                                assert(cache_mid[i] == c);
                                assert(cache_mid[q].block_root == root);
                                assert(cache_mid[i].block_root != root);
                            } else if cache_mid.len() < old(self).snapshot_cache.capacity {
                                assert(i < cache_mid.len()) by {
                                    if i == cache_mid.len() as int {
                                        assert(c == snew);
                                        assert(state_equiv(c.state, post));
                                    }
                                }
                                assert(cache_mid[i] == c);
                                assert(!snapshots_contain(cache_mid, root));
                            } else {
                                assert(i < self.snapshot_cache.snapshots@.len() - 1) by {
                                    if i == self.snapshot_cache.snapshots@.len() - 1 {
                                        assert(c == snew);
                                        assert(state_equiv(c.state, post));
                                    }
                                }
                                assert(cache_mid[i + 1] == c);
                                assert(!snapshots_contain(cache_mid, root));
                            }
                        }
                        let k = choose|k: int|
                            0 <= k < cache_mid.len() && #[trigger] cache_mid[k] == c
                                && cache_mid[k].block_root != root;
                        let j = choose|j: int|
                            0 <= j < store_mid.len() && (#[trigger] store_mid[j]).block_root
                                == c.block_root && store_mid[j].slot == c.slot && state_equiv(
                                store_mid[j].state,
                                c.state,
                            );
                        if snapshots_contain(store_mid, root) {
                            let p = spec_position(store_mid, root);
                            assert(store_mid[p].block_root == root) by {
                                let w = choose|w: int|
                                    0 <= w < store_mid.len() && store_mid[w].block_root == root;
                                lemma_spec_position(store_mid, root, w);
                            }
                            assert(j != p);
                            assert(store1[j] == store_mid[j]);
                        } else {
                            assert(store1[j] == store_mid[j]);
                        }
                    }
                }
            }
        }
        Ok(BlockProcessingOutcome::Valid { block_root: root, is_new_head })
    }

    /// Feed one attestation: validate its signature and its validator
    /// against the head state, then update the fork-choice vote
    /// bookkeeping and the head pointer. No state transition runs.
    pub fn process_attestation(&mut self, a: Attestation) -> (r: Result<
        AttestationProcessingOutcome,
        ChainError,
    >)
        requires
            old(self).wf(),
            a.validator_index < usize::MAX,
        ensures
            final(self).wf(),
            write_blocked(old(self).shared) ==> r == Err::<AttestationProcessingOutcome, ChainError>(
                ChainError::LockTimeout,
            ) && chain_preserved(*old(self), *final(self)),
            !write_blocked(old(self).shared) ==> ({
                let keys = old(self).pubkey_cache.pubkeys@;
                let nodes0 = old(self).shared.value.fork_choice.nodes@;
                let votes0 = old(self).shared.value.fork_choice.votes@;
                let registry = old(self).head_snapshot.state.validators@;
                if !attestation_sig_ok(a, keys) || a.validator_index >= registry.len() {
                    r == Ok::<AttestationProcessingOutcome, ChainError>(
                        AttestationProcessingOutcome::Invalid,
                    ) && chain_preserved(*old(self), *final(self))
                } else if !nodes_contain(nodes0, a.target_root) {
                    r == Ok::<AttestationProcessingOutcome, ChainError>(
                        AttestationProcessingOutcome::Invalid,
                    ) && chain_preserved(*old(self), *final(self))
                } else if vote_stale(votes0, a.validator_index as int, a.epoch) {
                    r == Ok::<AttestationProcessingOutcome, ChainError>(
                        AttestationProcessingOutcome::IgnoredStaleEpoch,
                    ) && chain_preserved(*old(self), *final(self))
                } else {
                    let balance = registry[a.validator_index as int].effective_balance;
                    let nodes1 = final(self).shared.value.fork_choice.nodes@;
                    &&& r == Ok::<AttestationProcessingOutcome, ChainError>(
                        AttestationProcessingOutcome::Accepted,
                    )
                    &&& nodes1 == attestation_weights(
                        nodes0,
                        votes0,
                        a.validator_index as int,
                        a.target_root,
                        balance,
                        old(self).shared.value.fork_choice.justified.root,
                    )
                    &&& final(self).shared.value.fork_choice.votes@ == votes_extended(
                        votes0,
                        a.validator_index as int,
                    ).update(
                        a.validator_index as int,
                        Some(Vote { epoch: a.epoch, root: a.target_root, balance }),
                    )
                    &&& final(self).shared.value.fork_choice.justified == old(
                        self,
                    ).shared.value.fork_choice.justified
                    &&& final(self).shared.value.fork_choice.finalized == old(
                        self,
                    ).shared.value.fork_choice.finalized
                    &&& final(self).shared.value.head_tracker.heads@ == old(
                        self,
                    ).shared.value.head_tracker.heads@
                    &&& final(self).shared.value.head_root == nodes1[spec_head_from(
                        nodes1,
                        node_index(nodes1, final(self).shared.value.fork_choice.justified.root),
                    )].root
                    &&& final(self).pubkey_cache.pubkeys@ == old(self).pubkey_cache.pubkeys@
                    &&& final(self).snapshot_cache.snapshots@ == old(self).snapshot_cache.snapshots@
                    &&& final(self).store.snapshots@ == old(self).store.snapshots@
                    &&& final(self).stored_blocks@ == old(self).stored_blocks@
                    &&& final(self).shared.readers == old(self).shared.readers
                    &&& final(self).shared.writer == old(self).shared.writer
                }
            }),
    {
        if self.shared.writer || self.shared.readers > 0 {
            return Err(ChainError::LockTimeout);
        }
        if !verify_attestation_signature(&a, &self.pubkey_cache) {
            return Ok(AttestationProcessingOutcome::Invalid);
        }
        if a.validator_index >= self.head_snapshot.state.validators.len() as u64 {
            return Ok(AttestationProcessingOutcome::Invalid);
        }
        let balance = self.head_snapshot.state.validators[a.validator_index as usize]
            .effective_balance;
        let ghost nodes0 = self.shared.value.fork_choice.nodes@;
        match self.shared.acquire_write() {
            Ok(u) => {},
            Err(e) => {
                proof {
                    assert(false);
                }
                return Err(ChainError::LockTimeout);
            },
        }
        let outcome = self.shared.value.fork_choice.on_attestation(
            a.validator_index as usize,
            a.epoch,
            a.target_root,
            balance,
        );
        let r: AttestationProcessingOutcome;
        match outcome {
            AttestationOutcome::Invalid => {
                r = AttestationProcessingOutcome::Invalid;
            },
            AttestationOutcome::Ignored => {
                r = AttestationProcessingOutcome::IgnoredStaleEpoch;
            },
            AttestationOutcome::Accepted => {
                let new_head = self.shared.value.fork_choice.get_head();
                self.shared.value.head_root = new_head;
                r = AttestationProcessingOutcome::Accepted;
            },
        }
        self.shared.release_write();
        proof {
            let nodes1 = self.shared.value.fork_choice.nodes@;
            if outcome == AttestationOutcome::Accepted {
                lemma_attestation_weights_frame(
                    nodes0,
                    old(self).shared.value.fork_choice.votes@,
                    a.validator_index as int,
                    a.target_root,
                    balance,
                    old(self).shared.value.fork_choice.justified.root,
                );
                assert(store_covers(nodes1, self.store.snapshots@)) by {
                    assert forall|i: int| 0 <= i < nodes1.len() implies exists|j: int|
                        0 <= j < self.store.snapshots@.len() && (
                        #[trigger] self.store.snapshots@[j]).block_root == (
                        #[trigger] nodes1[i]).root && self.store.snapshots@[j].slot
                            == nodes1[i].slot && self.store.snapshots@[j].state.slot
                            == nodes1[i].slot by {
                        assert(nodes1[i].root == nodes0[i].root && nodes1[i].slot
                            == nodes0[i].slot);
                        let j = choose|j: int|
                            0 <= j < self.store.snapshots@.len() && (
                            #[trigger] self.store.snapshots@[j]).block_root == nodes0[i].root
                                && self.store.snapshots@[j].slot == nodes0[i].slot
                                && self.store.snapshots@[j].state.slot == nodes0[i].slot;
                    }
                }
            }
        }
        Ok(r)
    }

    /// Read the canonical head under the read side of the lock: the root of
    /// the leaf reached by the deterministic fork-choice descent. It always
    /// descends from the current justified checkpoint and is never a pruned
    /// root.
    pub fn get_head(&self) -> (r: Result<u64, ChainError>)
        requires
            self.wf(),
        ensures
            self.shared.writer ==> r == Err::<u64, ChainError>(ChainError::LockTimeout),
            !self.shared.writer ==> ({
                let nodes = self.shared.value.fork_choice.nodes@;
                let jidx = node_index(nodes, self.shared.value.fork_choice.justified.root);
                let hidx = spec_head_from(nodes, jidx);
                &&& r == Ok::<u64, ChainError>(nodes[hidx].root)
                &&& nodes_contain(nodes, nodes[hidx].root)
                &&& is_descendant_idx(nodes, hidx, jidx)
                &&& !has_child(nodes, hidx)
            }),
    {
        if self.shared.writer {
            return Err(ChainError::LockTimeout);
        }
        Ok(self.shared.value.fork_choice.get_head())
    }

    /// Advance finality: prune from fork choice and head tracker every
    /// branch that neither lies on the path to the new finalized checkpoint
    /// nor descends from it, and recompute the head. A head selected
    /// afterwards can never be a pruned root, since the head is always a
    /// registered node.
    pub fn prune(&mut self, checkpoint: Checkpoint) -> (r: Result<(), ChainError>)
        requires
            old(self).wf(),
            nodes_contain(old(self).shared.value.fork_choice.nodes@, checkpoint.root),
            checkpoint.epoch >= old(self).shared.value.fork_choice.finalized.epoch,
        ensures
            final(self).wf(),
            write_blocked(old(self).shared) ==> r == Err::<(), ChainError>(ChainError::LockTimeout)
                && chain_preserved(*old(self), *final(self)),
            !write_blocked(old(self).shared) ==> ({
                let nodes0 = old(self).shared.value.fork_choice.nodes@;
                let nodes1 = final(self).shared.value.fork_choice.nodes@;
                &&& r == Ok::<(), ChainError>(())
                &&& (forall|x: u64|
                    nodes_contain(nodes1, x) == on_finalized_path(nodes0, x, checkpoint.root))
                &&& final(self).shared.value.fork_choice.finalized == checkpoint
                &&& final(self).shared.value.fork_choice.justified == (if descends_root(
                    nodes0,
                    old(self).shared.value.fork_choice.justified.root,
                    checkpoint.root,
                ) {
                    old(self).shared.value.fork_choice.justified
                } else {
                    checkpoint
                })
                &&& (forall|h: u64|
                    roots_contain(final(self).shared.value.head_tracker.heads@, h) == (
                    roots_contain(old(self).shared.value.head_tracker.heads@, h)
                        && nodes_contain(nodes1, h)))
                &&& final(self).shared.value.head_root == nodes1[spec_head_from(
                    nodes1,
                    node_index(nodes1, final(self).shared.value.fork_choice.justified.root),
                )].root
                &&& final(self).store.snapshots@ == old(self).store.snapshots@
                &&& final(self).snapshot_cache.snapshots@ == old(self).snapshot_cache.snapshots@
                &&& final(self).pubkey_cache.pubkeys@ == old(self).pubkey_cache.pubkeys@
                &&& final(self).shared.readers == old(self).shared.readers
                &&& final(self).shared.writer == old(self).shared.writer
            }),
    {
        if self.shared.writer || self.shared.readers > 0 {
            return Err(ChainError::LockTimeout);
        }
        let ghost nodes0 = self.shared.value.fork_choice.nodes@;
        match self.shared.acquire_write() {
            Ok(u) => {},
            Err(e) => {
                proof {
                    assert(false);
                }
                return Err(ChainError::LockTimeout);
            },
        }
        self.shared.value.fork_choice.prune(checkpoint);
        let new_heads = pruned_heads(
            &self.shared.value.fork_choice,
            &self.shared.value.head_tracker.heads,
        );
        self.shared.value.head_tracker = HeadTracker { heads: new_heads };
        let new_head = self.shared.value.fork_choice.get_head();
        self.shared.value.head_root = new_head;
        self.shared.release_write();
        proof {
            let nodes1 = self.shared.value.fork_choice.nodes@;
            assert(store_covers(nodes1, self.store.snapshots@)) by {
                assert forall|i: int| 0 <= i < nodes1.len() implies exists|j: int|
                    0 <= j < self.store.snapshots@.len() && (
                    #[trigger] self.store.snapshots@[j]).block_root == (
                    #[trigger] nodes1[i]).root && self.store.snapshots@[j].slot == nodes1[i].slot
                        && self.store.snapshots@[j].state.slot == nodes1[i].slot by {
                    let k = choose|k: int|
                        0 <= k < nodes0.len() && nodes0[k].root == nodes1[i].root && nodes0[k].slot
                            == nodes1[i].slot && nodes0[k].weight == nodes1[i].weight;
                    let j = choose|j: int|
                        0 <= j < self.store.snapshots@.len() && (
                        #[trigger] self.store.snapshots@[j]).block_root == nodes0[k].root
                            && self.store.snapshots@[j].slot == nodes0[k].slot
                            && self.store.snapshots@[j].state.slot == nodes0[k].slot;
                }
            }
        }
        Ok(())
    }

    /// Batch import of a contiguous run of blocks, stopping at the first
    /// rejection: the write lock's overhead is paid once per segment rather
    /// than once per block. The outcomes and the final chain are exactly
    /// those of importing the blocks one by one, as `segment_imports`
    /// relates them.
    pub fn process_chain_segment(&mut self, blocks: Vec<Block>, now: u64) -> (r: Result<
        Vec<BlockProcessingOutcome>,
        ChainError,
    >)
        requires
            old(self).wf(),
        ensures
            final(self).wf(),
            write_blocked(old(self).shared) ==> r == Err::<Vec<BlockProcessingOutcome>, ChainError>(
                ChainError::LockTimeout,
            ),
            match r {
                Ok(outs) => {
                    &&& segment_imports(*old(self), *final(self), blocks@, outs@, now)
                    &&& outs@.len() <= blocks@.len()
                    &&& (forall|k: int|
                        0 <= k < outs@.len() - 1 ==> #[trigger] outs@[k] matches
                            BlockProcessingOutcome::Valid { .. })
                },
                Err(e) => e == ChainError::LockTimeout,
            },
    {
        if self.shared.writer || self.shared.readers > 0 {
            return Err(ChainError::LockTimeout);
        }
        let ghost pre0 = *self;
        let ghost all_blocks = blocks@;
        let mut outcomes: Vec<BlockProcessingOutcome> = Vec::new();
        let mut blocks = blocks;
        let n = blocks.len();
        let mut i: usize = 0;
        let mut stopped = false;
        proof {
            assert(all_blocks.take(0) =~= Seq::<Block>::empty());
        }
        while i < n && !stopped
            invariant
                self.wf(),
                n == all_blocks.len(),
                blocks@ =~= all_blocks.skip(i as int),
                0 <= i <= n,
                outcomes@.len() <= i,
                !self.shared.writer,
                self.shared.readers == 0,
                forall|k: int|
                    0 <= k < outcomes@.len() - 1 ==> #[trigger] outcomes@[k] matches
                        BlockProcessingOutcome::Valid { .. },
                !stopped ==> outcomes@.len() == i && (forall|k: int|
                    0 <= k < outcomes@.len() ==> #[trigger] outcomes@[k] matches
                        BlockProcessingOutcome::Valid { .. }) && segment_imports(
                    pre0,
                    *self,
                    all_blocks.take(i as int),
                    outcomes@,
                    now,
                ),
                stopped ==> segment_imports(pre0, *self, all_blocks, outcomes@, now),
            decreases n - i + (if stopped {
                0int
            } else {
                1int
            }),
        {
            if self.shared.value.fork_choice.nodes.len() >= usize::MAX - 1
                || self.store.snapshots.len() >= usize::MAX - 1 {
                proof {
                    lemma_segment_extend(
                        pre0,
                        *self,
                        all_blocks.take(i as int),
                        outcomes@,
                        all_blocks.skip(i as int),
                        now,
                    );
                    assert(all_blocks.take(i as int) + all_blocks.skip(i as int) =~= all_blocks);
                }
                stopped = true;
            } else {
                let ghost mid_pre = *self;
                let block = blocks.remove(0);
                proof {
                    assert(block == all_blocks[i as int]);
                    assert(blocks@ =~= all_blocks.skip(i + 1));
                }
                match self.process_block(block, now) {
                    Ok(outcome) => {
                        proof {
                            assert(import_step(mid_pre, *self, all_blocks[i as int], outcome, now));
                            lemma_segment_append(
                                pre0,
                                mid_pre,
                                *self,
                                all_blocks.take(i as int),
                                outcomes@,
                                all_blocks[i as int],
                                outcome,
                                now,
                            );
                            assert(all_blocks.take(i as int).push(all_blocks[i as int])
                                =~= all_blocks.take(i + 1));
                        }
                        let stop = match outcome {
                            BlockProcessingOutcome::Invalid { error: e } => true,
                            BlockProcessingOutcome::Valid { .. } => false,
                        };
                        outcomes.push(outcome);
                        if stop {
                            proof {
                                assert(outcomes@[outcomes@.len() - 1] == outcome);
                                lemma_segment_extend(
                                    pre0,
                                    *self,
                                    all_blocks.take(i + 1),
                                    outcomes@,
                                    all_blocks.skip(i + 1),
                                    now,
                                );
                                assert(all_blocks.take(i + 1) + all_blocks.skip(i + 1)
                                    =~= all_blocks);
                            }
                            stopped = true;
                        }
                    },
                    Err(e) => {
                        return Err(e);
                    },
                }
                i = i + 1;
            }
        }
        proof {
            if !stopped {
                assert(all_blocks.take(n as int) =~= all_blocks);
            }
        }
        Ok(outcomes)
    }

    /// Serve a state at the requested slot from the hot cache (or the head
    /// snapshot), advancing the nearest snapshot at or below the slot; with
    /// no such snapshot the request fails.
    pub fn get_state_at_slot(&self, slot: u64) -> (r: Result<State, ChainError>)
        requires
            self.wf(),
        ensures
            match r {
                Ok(s) => {
                    let cache = self.snapshot_cache.snapshots@;
                    let head_state = self.head_snapshot.state;
                    &&& s.slot == slot
                    &&& ({
                        ||| (head_state.slot <= slot && state_advanced_from(head_state, s, slot)
                            && (forall|k: int|
                            0 <= k < cache.len() ==> ((#[trigger] cache[k]).state.slot <= slot
                                ==> cache[k].state.slot <= head_state.slot)))
                        ||| (exists|i: int|
                            0 <= i < cache.len() && (#[trigger] cache[i]).state.slot <= slot
                                && state_advanced_from(cache[i].state, s, slot) && (head_state.slot
                                <= slot ==> head_state.slot <= cache[i].state.slot) && (forall|
                                k: int,
                            |
                                0 <= k < cache.len() ==> ((#[trigger] cache[k]).state.slot <= slot
                                    ==> cache[k].state.slot <= cache[i].state.slot)))
                    })
                },
                Err(e) => e == ChainError::StateUnavailable
                    && self.head_snapshot.state.slot > slot && forall|i: int|
                    0 <= i < self.snapshot_cache.snapshots@.len()
                        ==> (#[trigger] self.snapshot_cache.snapshots@[i]).state.slot > slot,
            },
    {
        let mut best: Option<usize> = None;
        let mut i: usize = 0;
        while i < self.snapshot_cache.snapshots.len()
            invariant
                0 <= i <= self.snapshot_cache.snapshots@.len(),
                match best {
                    Some(b) => b < i && self.snapshot_cache.snapshots@[b as int].state.slot
                        <= slot && (forall|k: int|
                        0 <= k < i ==> ((#[trigger] self.snapshot_cache.snapshots@[k]).state.slot
                            <= slot ==> self.snapshot_cache.snapshots@[k].state.slot
                            <= self.snapshot_cache.snapshots@[b as int].state.slot)),
                    None => forall|k: int|
                        0 <= k < i ==> (#[trigger] self.snapshot_cache.snapshots@[k]).state.slot
                            > slot,
                },
            decreases self.snapshot_cache.snapshots@.len() - i,
        {
            if self.snapshot_cache.snapshots[i].state.slot <= slot {
                match best {
                    Some(b) => {
                        if self.snapshot_cache.snapshots[i].state.slot
                            > self.snapshot_cache.snapshots[b].state.slot {
                            best = Some(i);
                        }
                    },
                    None => {
                        best = Some(i);
                    },
                }
            }
            i = i + 1;
        }
        if self.head_snapshot.state.slot <= slot {
            let use_head = match best {
                Some(b) => self.head_snapshot.state.slot
                    >= self.snapshot_cache.snapshots[b].state.slot,
                None => true,
            };
            if use_head {
                let mut s = clone_state(&self.head_snapshot.state);
                process_slots(&mut s, slot);
                return Ok(s);
            }
        }
        match best {
            Some(b) => {
                let mut s = clone_state(&self.snapshot_cache.snapshots[b].state);
                process_slots(&mut s, slot);
                Ok(s)
            },
            None => Err(ChainError::StateUnavailable),
        }
    }
}

/// `s` is `src` advanced unchanged to `slot`: only the slot differs.
pub open spec fn state_advanced_from(src: State, s: State, slot: u64) -> bool {
    &&& s.slot == slot
    &&& s.randao == src.randao
    &&& s.validators@ == src.validators@
    &&& s.history@ == src.history@
    &&& s.justified == src.justified
    &&& s.finalized == src.finalized
}

} // verus!
