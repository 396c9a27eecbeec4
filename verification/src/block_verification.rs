//! Cheap pre-state-transition checks and the block-processing outcome types.
//!
//! Every check here is side-effect-free: a failed candidate leaves no
//! partial state behind.

use vstd::prelude::*;
use crate::primitives::{
    Attestation, Block, Checkpoint, FUTURE_SLOT_TOLERANCE, attestation_message,
    attestation_signing_message, block_root_of, compute_block_root, epoch_first_slot,
    epoch_start_slot, signature_tag, verify_signature,
};
use crate::fork_choice::{ForkChoice, ForkNode, lemma_node_index, node_index, nodes_contain};
use crate::validator_pubkey_cache::ValidatorPubkeyCache;

verus! {

/// Why a candidate block was rejected.
#[derive(Clone, Copy, PartialEq, Eq, Structural, Debug)]
pub enum BlockError {
    /// The block is already known.
    Duplicate,
    /// The block's slot lies beyond the local clock plus tolerance.
    FutureSlot,
    /// The parent is not known (or was pruned); the caller may requeue the
    /// block once, pending the parent's arrival.
    UnknownParent,
    /// The block conflicts with finality or with the slot order of its own
    /// ancestry (its slot does not advance past an already-occupied slot).
    WouldRevertFinalizedSlot,
    /// The proposer's signature does not verify.
    ProposerSignatureInvalid,
    /// The transition's post-state root differs from the declared one.
    StateRootMismatch,
    /// An aggregate signature in the block body does not verify.
    SignatureInvalid,
}

/// Outcome of a full block import.
#[derive(Clone, Copy, PartialEq, Eq, Structural, Debug)]
pub enum BlockProcessingOutcome {
    Valid { block_root: u64, is_new_head: bool },
    Invalid { error: BlockError },
}

/// Outcome of feeding one attestation to the chain.
#[derive(Clone, Copy, PartialEq, Eq, Structural, Debug)]
pub enum AttestationProcessingOutcome {
    Accepted,
    IgnoredStaleEpoch,
    Invalid,
}

/// Index of the proposer derived from the slot and the registry size.
pub open spec fn proposer_index_of(slot: u64, n_keys: int) -> int {
    (slot as int) % n_keys
}

/// Whether the proposer's signature over the block's root verifies against
/// the key the slot designates.
pub open spec fn proposer_sig_ok(b: Block, keys: Seq<u64>) -> bool {
    keys.len() > 0 && b.proposer_signature == signature_tag(
        keys[proposer_index_of(b.slot, keys.len() as int)],
        block_root_of(b),
    )
}

/// The partial verifier's verdict, in check order: duplicate, future slot,
/// unknown parent, slot order, finality conflict, proposer signature.
pub open spec fn partial_verdict(
    nodes: Seq<ForkNode>,
    finalized: Checkpoint,
    b: Block,
    now: u64,
    keys: Seq<u64>,
) -> Result<(), BlockError> {
    if nodes_contain(nodes, block_root_of(b)) {
        Err(BlockError::Duplicate)
    } else if b.slot > now + FUTURE_SLOT_TOLERANCE {
        Err(BlockError::FutureSlot)
    } else if !nodes_contain(nodes, b.parent_root) {
        Err(BlockError::UnknownParent)
    } else if b.slot <= nodes[node_index(nodes, b.parent_root)].slot {
        Err(BlockError::WouldRevertFinalizedSlot)
    } else if b.slot <= epoch_start_slot(finalized.epoch) {
        Err(BlockError::WouldRevertFinalizedSlot)
    } else if !proposer_sig_ok(b, keys) {
        Err(BlockError::ProposerSignatureInvalid)
    } else {
        Ok(())
    }
}

/// Run the cheap checks against the fork-choice store, the local clock and
/// the pubkey registry. No state is touched.
pub fn partial_verify(
    fc: &ForkChoice,
    b: &Block,
    now: u64,
    keys: &ValidatorPubkeyCache,
) -> (r: Result<(), BlockError>)
    requires
        fc.wf(),
    ensures
        r == partial_verdict(fc.nodes@, fc.finalized, *b, now, keys.pubkeys@),
{
    let root = compute_block_root(b);
    if fc.contains_block(root) {
        return Err(BlockError::Duplicate);
    }
    if now <= u64::MAX - FUTURE_SLOT_TOLERANCE && b.slot > now + FUTURE_SLOT_TOLERANCE {
        return Err(BlockError::FutureSlot);
    }
    let pidx = match fc.find_index(b.parent_root) {
        Some(i) => i,
        None => {
            return Err(BlockError::UnknownParent);
        },
    };
    proof {
        lemma_node_index(fc.nodes@, b.parent_root, pidx as int);
    }
    if b.slot <= fc.nodes[pidx].slot {
        return Err(BlockError::WouldRevertFinalizedSlot);
    }
    if b.slot <= epoch_first_slot(fc.finalized.epoch) {
        return Err(BlockError::WouldRevertFinalizedSlot);
    }
    let n_keys = keys.len();
    if n_keys == 0 {
        return Err(BlockError::ProposerSignatureInvalid);
    }
    let proposer = (b.slot % (n_keys as u64)) as usize;
    let pk = match keys.get(proposer as u64) {
        Ok(k) => k,
        Err(_) => {
            proof {
                assert(false);
            }
            0
        },
    };
    if !verify_signature(b.proposer_signature, pk, root) {
        return Err(BlockError::ProposerSignatureInvalid);
    }
    Ok(())
}

/// Whether one attestation's signature verifies against the registry.
pub open spec fn attestation_sig_ok(a: Attestation, keys: Seq<u64>) -> bool {
    a.validator_index < keys.len() && a.signature == signature_tag(
        keys[a.validator_index as int],
        attestation_message(a),
    )
}

/// Whether every aggregate signature in a block body verifies.
pub open spec fn body_signatures_ok(atts: Seq<Attestation>, keys: Seq<u64>) -> bool {
    forall|i: int| 0 <= i < atts.len() ==> attestation_sig_ok(#[trigger] atts[i], keys)
}

/// Batch-verify the attestation signatures of a block body.
pub fn verify_body_signatures(b: &Block, keys: &ValidatorPubkeyCache) -> (r: bool)
    ensures
        r == body_signatures_ok(b.attestations@, keys.pubkeys@),
{
    let mut i: usize = 0;
    while i < b.attestations.len()
        invariant
            0 <= i <= b.attestations@.len(),
            forall|k: int| 0 <= k < i ==> attestation_sig_ok(#[trigger] b.attestations@[k], keys.pubkeys@),
        decreases b.attestations@.len() - i,
    {
        let a = b.attestations[i];
        if a.validator_index >= keys.len() as u64 {
            return false;
        }
        let pk = match keys.get(a.validator_index) {
            Ok(k) => k,
            Err(_) => {
                proof {
                    assert(false);
                }
                0
            },
        };
        let msg = attestation_signing_message(&a);
        if !verify_signature(a.signature, pk, msg) {
            return false;
        }
        i = i + 1;
    }
    true
}

/// Verify one attestation's signature on its own.
pub fn verify_attestation_signature(a: &Attestation, keys: &ValidatorPubkeyCache) -> (r: bool)
    ensures
        r == attestation_sig_ok(*a, keys.pubkeys@),
{
    if a.validator_index >= keys.len() as u64 {
        return false;
    }
    let pk = match keys.get(a.validator_index) {
        Ok(k) => k,
        Err(_) => {
            proof {
                assert(false);
            }
            0
        },
    };
    let msg = attestation_signing_message(a);
    verify_signature(a.signature, pk, msg)
}

} // verus!
