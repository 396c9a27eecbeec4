use beacon_chain::beacon_chain::{BeaconChain, ChainError};
use beacon_chain::block_verification::{
    AttestationProcessingOutcome, BlockError, BlockProcessingOutcome,
};
use beacon_chain::head_tracker::HeadTracker;
use beacon_chain::primitives::{
    Attestation, Block, Checkpoint, Deposit, attestation_signing_message, compute_block_root,
    epoch_at_slot, epoch_first_slot, mix_digest, sign_message,
};
use beacon_chain::snapshot_cache::{Snapshot, SnapshotCache};
use beacon_chain::state::{
    State, Validator, apply_block_body, clone_state, compute_state_root, process_slots,
};
use beacon_chain::timeout_rw_lock::{LockError, TimeoutRwLock};
use beacon_chain::validator_pubkey_cache::{PubkeyCacheError, ValidatorPubkeyCache};

fn genesis_state(n_validators: u64, balance: u64) -> State {
    let mut validators: Vec<Validator> = Vec::new();
    let mut i: u64 = 0;
    while i < n_validators {
        validators.push(Validator { pubkey: 1000 + i, effective_balance: balance });
        i += 1;
    }
    State {
        slot: 0,
        randao: 7,
        validators,
        history: Vec::new(),
        justified: Checkpoint { epoch: 0, root: 0 },
        finalized: Checkpoint { epoch: 0, root: 0 },
    }
}

fn build_block(
    parent_state: &State,
    parent_root: u64,
    slot: u64,
    randao: u64,
    attestations: Vec<Attestation>,
    deposits: Vec<Deposit>,
    slashings: Vec<u64>,
    keys: &[u64],
) -> Block {
    let mut b = Block {
        slot,
        parent_root,
        state_root: 0,
        randao,
        attestations,
        deposits,
        slashings,
        proposer_signature: 0,
    };
    let mut post = clone_state(parent_state);
    process_slots(&mut post, slot);
    apply_block_body(&mut post, &b);
    b.state_root = compute_state_root(&post);
    let proposer = (slot % keys.len() as u64) as usize;
    let root = compute_block_root(&b);
    b.proposer_signature = sign_message(keys[proposer], root);
    b
}

fn build_attestation(validator_index: u64, epoch: u64, target_root: u64, key: u64) -> Attestation {
    let mut a = Attestation { validator_index, epoch, target_root, signature: 0 };
    let msg = attestation_signing_message(&a);
    a.signature = sign_message(key, msg);
    a
}

fn must_valid(r: Result<BlockProcessingOutcome, ChainError>) -> (u64, bool) {
    match r {
        Ok(BlockProcessingOutcome::Valid { block_root, is_new_head }) => (block_root, is_new_head),
        other => panic!("expected a valid import, got {:?}", other),
    }
}

fn must_invalid(r: Result<BlockProcessingOutcome, ChainError>) -> BlockError {
    match r {
        Ok(BlockProcessingOutcome::Invalid { error }) => error,
        other => panic!("expected a rejected import, got {:?}", other),
    }
}

fn keys() -> Vec<u64> {
    vec![1000, 1001, 1002]
}

const NOW: u64 = 1000;

#[test]
fn mix_digest_exact_values() {
    // (0 ^ 1) * prime wraps to the prime itself.
    assert_eq!(mix_digest(0, 1), 0x100_0000_01b3);
    // Equal inputs cancel to zero.
    assert_eq!(mix_digest(5, 5), 0);
}

#[test]
fn epoch_arithmetic() {
    assert_eq!(epoch_at_slot(0), 0);
    assert_eq!(epoch_at_slot(31), 0);
    assert_eq!(epoch_at_slot(64), 2);
    assert_eq!(epoch_first_slot(2), 64);
    assert_eq!(epoch_first_slot(u64::MAX), u64::MAX);
}

#[test]
fn pubkey_cache_is_append_only() {
    let mut cache = ValidatorPubkeyCache::new();
    let s3 = genesis_state(3, 10);
    cache.ingest(&s3);
    assert_eq!(cache.len(), 3);
    assert_eq!(cache.get(0), Ok(1000));
    assert_eq!(cache.get(2), Ok(1002));
    // Repeated lookups are stable.
    assert_eq!(cache.get(1), Ok(1001));
    assert_eq!(cache.get(1), Ok(1001));
    // Growing the registry keeps old entries and never shrinks.
    let s5 = genesis_state(5, 10);
    cache.ingest(&s5);
    assert_eq!(cache.len(), 5);
    assert_eq!(cache.get(0), Ok(1000));
    assert_eq!(cache.get(2), Ok(1002));
    assert_eq!(cache.get(4), Ok(1004));
    // Ingesting a shorter registry changes nothing.
    cache.ingest(&s3);
    assert_eq!(cache.len(), 5);
    // Out-of-range lookups fail.
    assert_eq!(cache.get(5), Err(PubkeyCacheError::UnknownValidator));
}

#[test]
fn write_timeout_spares_readers() {
    let mut lock: TimeoutRwLock<u64> = TimeoutRwLock::new(42);
    assert_eq!(lock.acquire_read(), Ok(()));
    assert_eq!(lock.acquire_read(), Ok(()));
    // A writer that expires on a reader-held lock times out...
    assert_eq!(lock.acquire_write(), Err(LockError::Timeout));
    // ...and readers keep being admitted.
    assert_eq!(lock.acquire_read(), Ok(()));
    lock.release_read();
    lock.release_read();
    lock.release_read();
    assert_eq!(lock.acquire_write(), Ok(()));
    // Another writer or reader now times out.
    assert_eq!(lock.acquire_write(), Err(LockError::Timeout));
    assert_eq!(lock.acquire_read(), Err(LockError::Timeout));
    lock.release_write();
    assert_eq!(lock.acquire_read(), Ok(()));
}

#[test]
fn snapshot_cache_evicts_oldest() {
    let mut cache = SnapshotCache::new(2);
    cache.insert(Snapshot { block_root: 1, slot: 1, state: genesis_state(0, 0) });
    cache.insert(Snapshot { block_root: 2, slot: 2, state: genesis_state(0, 0) });
    cache.insert(Snapshot { block_root: 3, slot: 3, state: genesis_state(0, 0) });
    assert!(cache.get(1).is_none());
    assert!(cache.get(2).is_some());
    assert!(cache.get(3).is_some());
    // Re-inserting an existing root replaces in place, without eviction.
    cache.insert(Snapshot { block_root: 2, slot: 9, state: genesis_state(0, 0) });
    assert_eq!(cache.get(2).unwrap().slot, 9);
    assert!(cache.get(3).is_some());
}

#[test]
fn head_tracker_leaves() {
    let mut tracker = HeadTracker::new(10);
    assert!(tracker.contains(10));
    tracker.on_new_child(10);
    tracker.on_block(11);
    assert!(!tracker.contains(10));
    assert!(tracker.contains(11));
    // Adding the same leaf twice keeps the set a set.
    tracker.on_block(11);
    assert_eq!(tracker.heads.len(), 1);
}

#[test]
fn genesis_head_is_genesis() {
    let s0 = genesis_state(3, 100);
    let genesis_root = compute_state_root(&s0);
    let chain = BeaconChain::new(s0, 8);
    assert_eq!(chain.get_head(), Ok(genesis_root));
}

#[test]
fn scenario_votes_move_the_head() {
    let s0 = genesis_state(3, 100);
    let genesis_root = compute_state_root(&s0);
    let s0_copy = clone_state(&s0);
    let mut chain = BeaconChain::new(s0, 8);

    // Import B1 (slot 1, parent = genesis); it becomes the head.
    let b1 = build_block(&s0_copy, genesis_root, 1, 11, vec![], vec![], vec![], &keys());
    let mut b1_post = clone_state(&s0_copy);
    process_slots(&mut b1_post, 1);
    apply_block_body(&mut b1_post, &b1);
    let (b1_root, b1_is_head) = must_valid(chain.process_block(b1, NOW));
    assert!(b1_is_head);

    // One validator of weight 100 votes for B1.
    let a0 = build_attestation(0, 1, b1_root, keys()[0]);
    assert_eq!(chain.process_attestation(a0), Ok(AttestationProcessingOutcome::Accepted));
    assert_eq!(chain.get_head(), Ok(b1_root));

    // A competing B2 (slot 1, parent = genesis, no votes) does not take over.
    let b2 = build_block(&s0_copy, genesis_root, 1, 22, vec![], vec![], vec![], &keys());
    let mut b2_post = clone_state(&s0_copy);
    process_slots(&mut b2_post, 1);
    apply_block_body(&mut b2_post, &b2);
    let (b2_root, _) = must_valid(chain.process_block(b2, NOW));
    assert_eq!(chain.get_head(), Ok(b1_root));

    // B3 extends B2 and gathers two validators' votes (weight 200): the
    // head switches to B3.
    let b3 = build_block(&b2_post, b2_root, 2, 33, vec![], vec![], vec![], &keys());
    let (b3_root, _) = must_valid(chain.process_block(b3, NOW));
    let a1 = build_attestation(1, 1, b3_root, keys()[1]);
    let a2 = build_attestation(2, 1, b3_root, keys()[2]);
    assert_eq!(chain.process_attestation(a1), Ok(AttestationProcessingOutcome::Accepted));
    assert_eq!(chain.process_attestation(a2), Ok(AttestationProcessingOutcome::Accepted));
    assert_eq!(chain.get_head(), Ok(b3_root));
}

#[test]
fn arrival_order_does_not_change_the_head() {
    let s0 = genesis_state(3, 100);
    let genesis_root = compute_state_root(&s0);
    let s0_a = clone_state(&s0);
    let s0_b = clone_state(&s0);

    let b1 = build_block(&s0, genesis_root, 1, 11, vec![], vec![], vec![], &keys());
    let b2 = build_block(&s0, genesis_root, 1, 22, vec![], vec![], vec![], &keys());
    let b1_again = build_block(&s0, genesis_root, 1, 11, vec![], vec![], vec![], &keys());
    let b2_again = build_block(&s0, genesis_root, 1, 22, vec![], vec![], vec![], &keys());
    let b1_root = compute_block_root(&b1);

    let mut chain_a = BeaconChain::new(s0_a, 8);
    must_valid(chain_a.process_block(b1, NOW));
    must_valid(chain_a.process_block(b2, NOW));

    let mut chain_b = BeaconChain::new(s0_b, 8);
    must_valid(chain_b.process_block(b2_again, NOW));
    must_valid(chain_b.process_block(b1_again, NOW));

    // With equal weights the tie-break is deterministic: both replicas
    // agree, whatever the sibling arrival order.
    assert_eq!(chain_a.get_head(), chain_b.get_head());

    // The same vote fed to both keeps them in agreement.
    let a0 = build_attestation(0, 1, b1_root, keys()[0]);
    let a0_again = build_attestation(0, 1, b1_root, keys()[0]);
    assert_eq!(chain_a.process_attestation(a0), Ok(AttestationProcessingOutcome::Accepted));
    assert_eq!(chain_b.process_attestation(a0_again), Ok(AttestationProcessingOutcome::Accepted));
    assert_eq!(chain_a.get_head(), chain_b.get_head());
    assert_eq!(chain_a.get_head(), Ok(b1_root));
}

#[test]
fn stale_epoch_votes_are_ignored() {
    let s0 = genesis_state(3, 100);
    let genesis_root = compute_state_root(&s0);
    let s0_copy = clone_state(&s0);
    let mut chain = BeaconChain::new(s0, 8);
    let b1 = build_block(&s0_copy, genesis_root, 1, 11, vec![], vec![], vec![], &keys());
    let b2 = build_block(&s0_copy, genesis_root, 1, 22, vec![], vec![], vec![], &keys());
    let (b1_root, _) = must_valid(chain.process_block(b1, NOW));
    let (b2_root, _) = must_valid(chain.process_block(b2, NOW));

    let first = build_attestation(0, 3, b1_root, keys()[0]);
    assert_eq!(chain.process_attestation(first), Ok(AttestationProcessingOutcome::Accepted));
    // An equal-epoch re-vote for a conflicting target is ignored: no re-vote
    // within an epoch.
    let revote = build_attestation(0, 3, b2_root, keys()[0]);
    assert_eq!(
        chain.process_attestation(revote),
        Ok(AttestationProcessingOutcome::IgnoredStaleEpoch)
    );
    assert_eq!(chain.get_head(), Ok(b1_root));
    // A strictly later epoch overwrites the vote and moves the weight.
    let newer = build_attestation(0, 4, b2_root, keys()[0]);
    assert_eq!(chain.process_attestation(newer), Ok(AttestationProcessingOutcome::Accepted));
    assert_eq!(chain.get_head(), Ok(b2_root));
}

#[test]
fn direct_child_of_cached_snapshot_needs_no_replay() {
    let s0 = genesis_state(3, 100);
    let genesis_root = compute_state_root(&s0);
    let s0_copy = clone_state(&s0);
    // Hot cache of one entry: every insert evicts the previous snapshot.
    let mut chain = BeaconChain::new(s0, 1);

    let b1 = build_block(&s0_copy, genesis_root, 1, 11, vec![], vec![], vec![], &keys());
    let mut b1_post = clone_state(&s0_copy);
    process_slots(&mut b1_post, 1);
    apply_block_body(&mut b1_post, &b1);
    let (b1_root, _) = must_valid(chain.process_block(b1, NOW));
    // Genesis was cached when B1 arrived: single-slot processing.
    assert_eq!(chain.last_replay_slots, 0);

    let b2 = build_block(&b1_post, b1_root, 2, 22, vec![], vec![], vec![], &keys());
    must_valid(chain.process_block(b2, NOW));
    // B1 was the cached entry: still no replay.
    assert_eq!(chain.last_replay_slots, 0);

    // A sibling of B2 arrives: its parent B1 was evicted, and the nearest
    // cached ancestor is a slot away, so the import is the degraded path.
    let b3 = build_block(&b1_post, b1_root, 2, 33, vec![], vec![], vec![], &keys());
    must_valid(chain.process_block(b3, NOW));
    assert_eq!(chain.last_replay_slots, 1);
}

#[test]
fn prune_drops_non_descendant_branches() {
    let s0 = genesis_state(3, 100);
    let genesis_root = compute_state_root(&s0);
    let s0_copy = clone_state(&s0);
    let mut chain = BeaconChain::new(s0, 8);

    let b1 = build_block(&s0_copy, genesis_root, 1, 11, vec![], vec![], vec![], &keys());
    let mut b1_post = clone_state(&s0_copy);
    process_slots(&mut b1_post, 1);
    apply_block_body(&mut b1_post, &b1);
    let (b1_root, _) = must_valid(chain.process_block(b1, NOW));
    let b2 = build_block(&s0_copy, genesis_root, 1, 22, vec![], vec![], vec![], &keys());
    let (b2_root, _) = must_valid(chain.process_block(b2, NOW));
    let b3 = build_block(&b1_post, b1_root, 2, 33, vec![], vec![], vec![], &keys());
    let (b3_root, _) = must_valid(chain.process_block(b3, NOW));

    assert_eq!(chain.prune(Checkpoint { epoch: 0, root: b1_root }), Ok(()));

    // B1's branch and the path to B1 survive, in fork choice and head
    // tracker alike; the sibling branch is gone.
    assert!(chain.shared.value.fork_choice.contains_block(b1_root));
    assert!(chain.shared.value.fork_choice.contains_block(b3_root));
    assert!(chain.shared.value.fork_choice.contains_block(genesis_root));
    assert!(!chain.shared.value.fork_choice.contains_block(b2_root));
    assert!(chain.shared.value.head_tracker.contains(b3_root));
    assert!(!chain.shared.value.head_tracker.contains(b2_root));
    // The head selected afterwards is never a pruned root.
    assert_eq!(chain.get_head(), Ok(b3_root));
}

#[test]
fn duplicate_block_is_rejected() {
    let s0 = genesis_state(3, 100);
    let genesis_root = compute_state_root(&s0);
    let s0_copy = clone_state(&s0);
    let mut chain = BeaconChain::new(s0, 8);
    let b1 = build_block(&s0_copy, genesis_root, 1, 11, vec![], vec![], vec![], &keys());
    let b1_again = build_block(&s0_copy, genesis_root, 1, 11, vec![], vec![], vec![], &keys());
    must_valid(chain.process_block(b1, NOW));
    assert_eq!(must_invalid(chain.process_block(b1_again, NOW)), BlockError::Duplicate);
}

#[test]
fn future_slot_is_rejected() {
    let s0 = genesis_state(3, 100);
    let genesis_root = compute_state_root(&s0);
    let s0_copy = clone_state(&s0);
    let mut chain = BeaconChain::new(s0, 8);
    let b = build_block(&s0_copy, genesis_root, 5, 11, vec![], vec![], vec![], &keys());
    // Local clock at 3, tolerance 1: slot 5 lies in the future.
    assert_eq!(must_invalid(chain.process_block(b, 3)), BlockError::FutureSlot);
}

#[test]
fn unknown_parent_is_rejected() {
    let s0 = genesis_state(3, 100);
    let s0_copy = clone_state(&s0);
    let mut chain = BeaconChain::new(s0, 8);
    let b = build_block(&s0_copy, 0xdead, 1, 11, vec![], vec![], vec![], &keys());
    assert_eq!(must_invalid(chain.process_block(b, NOW)), BlockError::UnknownParent);
}

#[test]
fn non_advancing_slot_is_rejected() {
    let s0 = genesis_state(3, 100);
    let genesis_root = compute_state_root(&s0);
    let s0_copy = clone_state(&s0);
    let mut chain = BeaconChain::new(s0, 8);
    // Slot 0 does not advance past the genesis slot.
    let b = build_block(&s0_copy, genesis_root, 0, 11, vec![], vec![], vec![], &keys());
    assert_eq!(
        must_invalid(chain.process_block(b, NOW)),
        BlockError::WouldRevertFinalizedSlot
    );
}

#[test]
fn bad_proposer_signature_is_rejected() {
    let s0 = genesis_state(3, 100);
    let genesis_root = compute_state_root(&s0);
    let s0_copy = clone_state(&s0);
    let mut chain = BeaconChain::new(s0, 8);
    let mut b = build_block(&s0_copy, genesis_root, 1, 11, vec![], vec![], vec![], &keys());
    b.proposer_signature ^= 1;
    assert_eq!(
        must_invalid(chain.process_block(b, NOW)),
        BlockError::ProposerSignatureInvalid
    );
}

#[test]
fn state_root_mismatch_is_rejected() {
    let s0 = genesis_state(3, 100);
    let genesis_root = compute_state_root(&s0);
    let s0_copy = clone_state(&s0);
    let mut chain = BeaconChain::new(s0, 8);
    let mut b = build_block(&s0_copy, genesis_root, 1, 11, vec![], vec![], vec![], &keys());
    b.state_root ^= 1;
    // Re-sign: the declared state root is part of the signed block root.
    let root = compute_block_root(&b);
    b.proposer_signature = sign_message(keys()[1], root);
    assert_eq!(must_invalid(chain.process_block(b, NOW)), BlockError::StateRootMismatch);
}

#[test]
fn bad_body_signature_is_rejected() {
    let s0 = genesis_state(3, 100);
    let genesis_root = compute_state_root(&s0);
    let s0_copy = clone_state(&s0);
    let mut chain = BeaconChain::new(s0, 8);
    // A body attestation whose signature does not verify: the whole block
    // is rejected, after the state root already matched.
    let bad_att = Attestation { validator_index: 0, epoch: 1, target_root: 9, signature: 9 };
    let b = build_block(&s0_copy, genesis_root, 1, 11, vec![bad_att], vec![], vec![], &keys());
    assert_eq!(must_invalid(chain.process_block(b, NOW)), BlockError::SignatureInvalid);
}

#[test]
fn lock_contention_surfaces_as_timeout() {
    let s0 = genesis_state(3, 100);
    let genesis_root = compute_state_root(&s0);
    let s0_copy = clone_state(&s0);
    let mut chain = BeaconChain::new(s0, 8);
    chain.shared.writer = true;
    let b1 = build_block(&s0_copy, genesis_root, 1, 11, vec![], vec![], vec![], &keys());
    assert_eq!(chain.process_block(b1, NOW), Err(ChainError::LockTimeout));
    assert_eq!(chain.get_head(), Err(ChainError::LockTimeout));
    let a0 = build_attestation(0, 1, genesis_root, keys()[0]);
    assert_eq!(chain.process_attestation(a0), Err(ChainError::LockTimeout));
    chain.shared.writer = false;
    // Recoverable: the same calls go through once the lock frees up.
    let b1_again = build_block(&s0_copy, genesis_root, 1, 11, vec![], vec![], vec![], &keys());
    must_valid(chain.process_block(b1_again, NOW));
}

#[test]
fn deposits_extend_the_validator_registry() {
    let s0 = genesis_state(3, 100);
    let genesis_root = compute_state_root(&s0);
    let s0_copy = clone_state(&s0);
    let mut chain = BeaconChain::new(s0, 8);
    assert_eq!(chain.pubkey_cache.len(), 3);
    let deposit = Deposit { pubkey: 2000, amount: 55 };
    let b1 = build_block(&s0_copy, genesis_root, 1, 11, vec![], vec![deposit], vec![], &keys());
    must_valid(chain.process_block(b1, NOW));
    assert_eq!(chain.pubkey_cache.len(), 4);
    assert_eq!(chain.pubkey_cache.get(3), Ok(2000));
}

#[test]
fn chain_segment_imports_a_run_of_blocks() {
    let s0 = genesis_state(3, 100);
    let genesis_root = compute_state_root(&s0);
    let s0_copy = clone_state(&s0);
    let mut chain = BeaconChain::new(s0, 8);
    let b1 = build_block(&s0_copy, genesis_root, 1, 11, vec![], vec![], vec![], &keys());
    let mut b1_post = clone_state(&s0_copy);
    process_slots(&mut b1_post, 1);
    apply_block_body(&mut b1_post, &b1);
    let b1_root = compute_block_root(&b1);
    let b2 = build_block(&b1_post, b1_root, 2, 22, vec![], vec![], vec![], &keys());
    let b2_root = compute_block_root(&b2);
    let outcomes = chain.process_chain_segment(vec![b1, b2], NOW).unwrap();
    assert_eq!(outcomes.len(), 2);
    assert!(matches!(outcomes[0], BlockProcessingOutcome::Valid { .. }));
    assert!(matches!(outcomes[1], BlockProcessingOutcome::Valid { .. }));
    assert_eq!(chain.get_head(), Ok(b2_root));
    // A segment stops at its first rejected block.
    let dup = build_block(&b1_post, b1_root, 2, 22, vec![], vec![], vec![], &keys());
    let orphan = build_block(&b1_post, 0xdead, 3, 33, vec![], vec![], vec![], &keys());
    let outcomes2 = chain.process_chain_segment(vec![dup, orphan], NOW).unwrap();
    assert_eq!(outcomes2.len(), 1);
    assert_eq!(
        outcomes2[0],
        BlockProcessingOutcome::Invalid { error: BlockError::Duplicate }
    );
}

#[test]
fn state_below_every_snapshot_is_unavailable() {
    let mut s0 = genesis_state(3, 100);
    s0.slot = 5;
    let chain = BeaconChain::new(s0, 8);
    assert!(matches!(chain.get_state_at_slot(3), Err(ChainError::StateUnavailable)));
    assert_eq!(chain.get_state_at_slot(7).unwrap().slot, 7);
}

#[test]
fn state_at_slot_is_served_from_snapshots() {
    let s0 = genesis_state(3, 100);
    let genesis_root = compute_state_root(&s0);
    let s0_copy = clone_state(&s0);
    let mut chain = BeaconChain::new(s0, 8);
    let b1 = build_block(&s0_copy, genesis_root, 1, 11, vec![], vec![], vec![], &keys());
    must_valid(chain.process_block(b1, NOW));
    // An exact slot and a skip-slot advance both serve.
    let s_at_1 = chain.get_state_at_slot(1).unwrap();
    assert_eq!(s_at_1.slot, 1);
    let s_at_5 = chain.get_state_at_slot(5).unwrap();
    assert_eq!(s_at_5.slot, 5);
    assert_eq!(s_at_5.randao, s_at_1.randao);
}
