//! Plain protocol values — slots, epochs, checkpoints, blocks — and the
//! deterministic content digests that give blocks their identity.
//!
//! The cryptographic layer is an external collaborator treated as a black
//! box; here a signature is modelled as a deterministic tag over the signer's
//! public key and the signed message, which keeps every validity decision a
//! pure function of plain values.

use vstd::prelude::*;

verus! {

/// Number of consecutive slots grouped into one epoch.
pub const SLOTS_PER_EPOCH: u64 = 32;

/// Multiplier of the mixing step in the content digests (the 64-bit FNV prime).
pub const DIGEST_PRIME: u64 = 0x100_0000_01b3;

/// Domain separator mixed into every block digest.
pub const BLOCK_DOMAIN: u64 = 0xb10c;

/// Domain separator mixed into every signature tag.
pub const SIGNATURE_DOMAIN: u64 = 0x516;

/// How many slots beyond the local clock a block may claim before it is
/// rejected as a future block.
pub const FUTURE_SLOT_TOLERANCE: u64 = 1;

/// An (epoch, block root) anchor used for justification and finality.
#[derive(Clone, Copy, PartialEq, Eq, Structural, Debug)]
pub struct Checkpoint {
    pub epoch: u64,
    pub root: u64,
}

/// One mixing step of the running content digest.
pub open spec fn mix(h: u64, x: u64) -> u64 {
    (h ^ x).wrapping_mul(DIGEST_PRIME)
}

/// Executable mixing step.
pub fn mix_digest(h: u64, x: u64) -> (r: u64)
    ensures
        r == mix(h, x),
{
    (h ^ x).wrapping_mul(DIGEST_PRIME)
}

/// Epoch that a slot belongs to.
pub open spec fn epoch_of_slot(slot: u64) -> u64 {
    slot / SLOTS_PER_EPOCH
}

/// Executable epoch of a slot.
pub fn epoch_at_slot(slot: u64) -> (e: u64)
    ensures
        e == epoch_of_slot(slot),
{
    slot / SLOTS_PER_EPOCH
}

/// First slot of an epoch, saturating at the largest representable slot.
pub open spec fn epoch_start_slot(epoch: u64) -> u64 {
    if epoch <= u64::MAX / SLOTS_PER_EPOCH {
        (epoch * SLOTS_PER_EPOCH) as u64
    } else {
        u64::MAX
    }
}

/// Executable first slot of an epoch.
pub fn epoch_first_slot(epoch: u64) -> (s: u64)
    ensures
        s == epoch_start_slot(epoch),
{
    if epoch <= u64::MAX / SLOTS_PER_EPOCH {
        epoch * SLOTS_PER_EPOCH
    } else {
        u64::MAX
    }
}

/// A vote by one validator for a target block at an epoch.
#[derive(Clone, Copy, PartialEq, Eq, Structural, Debug)]
pub struct Attestation {
    pub validator_index: u64,
    pub epoch: u64,
    pub target_root: u64,
    pub signature: u64,
}

/// A deposit registering a new validator with its starting balance.
#[derive(Clone, Copy, PartialEq, Eq, Structural, Debug)]
pub struct Deposit {
    pub pubkey: u64,
    pub amount: u64,
}

/// A candidate block: header fields plus body.
pub struct Block {
    pub slot: u64,
    pub parent_root: u64,
    pub state_root: u64,
    pub randao: u64,
    pub attestations: Vec<Attestation>,
    pub deposits: Vec<Deposit>,
    pub slashings: Vec<u64>,
    pub proposer_signature: u64,
}

/// Digest of one attestation.
pub open spec fn attestation_digest(a: Attestation) -> u64 {
    mix(mix(mix(a.validator_index, a.epoch), a.target_root), a.signature)
}

/// Digest of one deposit.
pub open spec fn deposit_digest(d: Deposit) -> u64 {
    mix(d.pubkey, d.amount)
}

/// Left fold of attestation digests into a running digest.
pub open spec fn fold_attestations(s: Seq<Attestation>, acc: u64) -> u64
    decreases s.len(),
{
    if s.len() == 0 {
        acc
    } else {
        fold_attestations(s.drop_first(), mix(acc, attestation_digest(s[0])))
    }
}

/// Left fold of deposit digests into a running digest.
pub open spec fn fold_deposits(s: Seq<Deposit>, acc: u64) -> u64
    decreases s.len(),
{
    if s.len() == 0 {
        acc
    } else {
        fold_deposits(s.drop_first(), mix(acc, deposit_digest(s[0])))
    }
}

/// Left fold of plain words into a running digest.
pub open spec fn fold_words(s: Seq<u64>, acc: u64) -> u64
    decreases s.len(),
{
    if s.len() == 0 {
        acc
    } else {
        fold_words(s.drop_first(), mix(acc, s[0]))
    }
}

proof fn lemma_fold_attestations_step(s: Seq<Attestation>, i: int, acc: u64)
    requires
        0 <= i < s.len(),
    ensures
        fold_attestations(s.skip(i), acc) == fold_attestations(
            s.skip(i + 1),
            mix(acc, attestation_digest(s[i])),
        ),
{
    assert(s.skip(i).drop_first() =~= s.skip(i + 1));
    assert(s.skip(i)[0] == s[i]);
}

proof fn lemma_fold_deposits_step(s: Seq<Deposit>, i: int, acc: u64)
    requires
        0 <= i < s.len(),
    ensures
        fold_deposits(s.skip(i), acc) == fold_deposits(s.skip(i + 1), mix(acc, deposit_digest(s[i]))),
{
    assert(s.skip(i).drop_first() =~= s.skip(i + 1));
    assert(s.skip(i)[0] == s[i]);
}

pub proof fn lemma_fold_words_step(s: Seq<u64>, i: int, acc: u64)
    requires
        0 <= i < s.len(),
    ensures
        fold_words(s.skip(i), acc) == fold_words(s.skip(i + 1), mix(acc, s[i])),
{
    assert(s.skip(i).drop_first() =~= s.skip(i + 1));
    assert(s.skip(i)[0] == s[i]);
}

/// Digest of a block's header and body, excluding the declared state root
/// and the proposer signature. This is what a state's history records, so a
/// producer can compute the post-state root before declaring it.
pub open spec fn body_root_of(b: Block) -> u64 {
    let header = mix(mix(mix(BLOCK_DOMAIN, b.slot), b.parent_root), b.randao);
    fold_words(b.slashings@, fold_deposits(b.deposits@, fold_attestations(b.attestations@, header)))
}

/// Content digest of a block, excluding the proposer signature. It is both
/// the block's identity (its `block_root`) and the message the proposer signs.
pub open spec fn block_root_of(b: Block) -> u64 {
    mix(body_root_of(b), b.state_root)
}

/// Executable body root.
pub fn compute_body_root(b: &Block) -> (r: u64)
    ensures
        r == body_root_of(*b),
{
    let mut h: u64 = mix_digest(
        mix_digest(mix_digest(BLOCK_DOMAIN, b.slot), b.parent_root),
        b.randao,
    );
    let ghost header = h;
    proof {
        assert(b.attestations@.skip(0) =~= b.attestations@);
    }
    let mut i: usize = 0;
    while i < b.attestations.len()
        invariant
            0 <= i <= b.attestations.len(),
            fold_attestations(b.attestations@.skip(i as int), h) == fold_attestations(
                b.attestations@,
                header,
            ),
        decreases b.attestations.len() - i,
    {
        proof {
            lemma_fold_attestations_step(b.attestations@, i as int, h);
        }
        h = mix_digest(h, attestation_tag(&b.attestations[i]));
        i = i + 1;
    }
    assert(b.attestations@.skip(i as int) =~= Seq::<Attestation>::empty());
    let ghost after_atts = h;
    proof {
        assert(b.deposits@.skip(0) =~= b.deposits@);
    }
    let mut j: usize = 0;
    while j < b.deposits.len()
        invariant
            0 <= j <= b.deposits.len(),
            fold_deposits(b.deposits@.skip(j as int), h) == fold_deposits(b.deposits@, after_atts),
        decreases b.deposits.len() - j,
    {
        proof {
            lemma_fold_deposits_step(b.deposits@, j as int, h);
        }
        h = mix_digest(h, deposit_tag(&b.deposits[j]));
        j = j + 1;
    }
    assert(b.deposits@.skip(j as int) =~= Seq::<Deposit>::empty());
    let ghost after_deps = h;
    proof {
        assert(b.slashings@.skip(0) =~= b.slashings@);
    }
    let mut k: usize = 0;
    while k < b.slashings.len()
        invariant
            0 <= k <= b.slashings.len(),
            fold_words(b.slashings@.skip(k as int), h) == fold_words(b.slashings@, after_deps),
        decreases b.slashings.len() - k,
    {
        proof {
            lemma_fold_words_step(b.slashings@, k as int, h);
        }
        h = mix_digest(h, b.slashings[k]);
        k = k + 1;
    }
    assert(b.slashings@.skip(k as int) =~= Seq::<u64>::empty());
    h
}

/// Executable block root.
pub fn compute_block_root(b: &Block) -> (r: u64)
    ensures
        r == block_root_of(*b),
{
    mix_digest(compute_body_root(b), b.state_root)
}

/// Executable attestation digest.
pub fn attestation_tag(a: &Attestation) -> (r: u64)
    ensures
        r == attestation_digest(*a),
{
    mix_digest(mix_digest(mix_digest(a.validator_index, a.epoch), a.target_root), a.signature)
}

/// Executable deposit digest.
pub fn deposit_tag(d: &Deposit) -> (r: u64)
    ensures
        r == deposit_digest(*d),
{
    mix_digest(d.pubkey, d.amount)
}

/// The modelled signature tag a key produces over a message.
pub open spec fn signature_tag(pubkey: u64, message: u64) -> u64 {
    mix(mix(SIGNATURE_DOMAIN, pubkey), message)
}

/// Produce the signature a key yields over a message.
pub fn sign_message(pubkey: u64, message: u64) -> (r: u64)
    ensures
        r == signature_tag(pubkey, message),
{
    mix_digest(mix_digest(SIGNATURE_DOMAIN, pubkey), message)
}

/// Check a signature against a key and a message.
pub fn verify_signature(signature: u64, pubkey: u64, message: u64) -> (r: bool)
    ensures
        r == (signature == signature_tag(pubkey, message)),
{
    signature == sign_message(pubkey, message)
}

/// Message covered by an attestation's signature.
pub open spec fn attestation_message(a: Attestation) -> u64 {
    mix(a.epoch, a.target_root)
}

/// Executable attestation message.
pub fn attestation_signing_message(a: &Attestation) -> (r: u64)
    ensures
        r == attestation_message(*a),
{
    mix_digest(a.epoch, a.target_root)
}

} // verus!
