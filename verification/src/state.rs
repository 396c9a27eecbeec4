//! Chain state and the deterministic transition function.
//!
//! A state is produced only by applying the transition to a (pre-state,
//! block) pair; its root is a content digest that a block must match to be
//! accepted.

use vstd::prelude::*;
use crate::primitives::{
    Block, Checkpoint, Deposit, body_root_of, compute_body_root, fold_words,
    lemma_fold_words_step, mix, mix_digest,
};

verus! {

/// Domain separator mixed into every state digest.
pub const STATE_DOMAIN: u64 = 0x57a7e;

/// One registered validator: permanent identity plus effective balance.
#[derive(Clone, Copy, PartialEq, Eq, Structural, Debug)]
pub struct Validator {
    pub pubkey: u64,
    pub effective_balance: u64,
}

/// The chain state aggregate.
pub struct State {
    pub slot: u64,
    pub randao: u64,
    pub validators: Vec<Validator>,
    pub history: Vec<u64>,
    pub justified: Checkpoint,
    pub finalized: Checkpoint,
}

/// Digest of one validator entry.
pub open spec fn validator_digest(v: Validator) -> u64 {
    mix(v.pubkey, v.effective_balance)
}

/// Left fold of validator digests into a running digest.
pub open spec fn fold_validators(s: Seq<Validator>, acc: u64) -> u64
    decreases s.len(),
{
    if s.len() == 0 {
        acc
    } else {
        fold_validators(s.drop_first(), mix(acc, validator_digest(s[0])))
    }
}

proof fn lemma_fold_validators_step(s: Seq<Validator>, i: int, acc: u64)
    requires
        0 <= i < s.len(),
    ensures
        fold_validators(s.skip(i), acc) == fold_validators(
            s.skip(i + 1),
            mix(acc, validator_digest(s[i])),
        ),
{
    assert(s.skip(i).drop_first() =~= s.skip(i + 1));
    assert(s.skip(i)[0] == s[i]);
}

/// State digest over the plain model values of every field.
pub open spec fn state_root_model(
    slot: u64,
    randao: u64,
    validators: Seq<Validator>,
    history: Seq<u64>,
    justified: Checkpoint,
    finalized: Checkpoint,
) -> u64 {
    let header = mix(
        mix(mix(mix(STATE_DOMAIN, slot), randao), mix(justified.epoch, justified.root)),
        mix(finalized.epoch, finalized.root),
    );
    fold_words(history, fold_validators(validators, header))
}

/// State digest of a state value.
pub open spec fn state_root_of(s: State) -> u64 {
    state_root_model(s.slot, s.randao, s.validators@, s.history@, s.justified, s.finalized)
}

/// Executable state root.
pub fn compute_state_root(s: &State) -> (r: u64)
    ensures
        r == state_root_of(*s),
{
    let mut h: u64 = mix_digest(
        mix_digest(
            mix_digest(mix_digest(STATE_DOMAIN, s.slot), s.randao),
            mix_digest(s.justified.epoch, s.justified.root),
        ),
        mix_digest(s.finalized.epoch, s.finalized.root),
    );
    let ghost header = h;
    proof {
        assert(s.validators@.skip(0) =~= s.validators@);
    }
    let mut i: usize = 0;
    while i < s.validators.len()
        invariant
            0 <= i <= s.validators.len(),
            fold_validators(s.validators@.skip(i as int), h) == fold_validators(
                s.validators@,
                header,
            ),
        decreases s.validators.len() - i,
    {
        proof {
            lemma_fold_validators_step(s.validators@, i as int, h);
        }
        h = mix_digest(h, mix_digest(s.validators[i].pubkey, s.validators[i].effective_balance));
        i = i + 1;
    }
    assert(s.validators@.skip(i as int) =~= Seq::<Validator>::empty());
    let ghost after_vals = h;
    proof {
        assert(s.history@.skip(0) =~= s.history@);
    }
    let mut k: usize = 0;
    while k < s.history.len()
        invariant
            0 <= k <= s.history.len(),
            fold_words(s.history@.skip(k as int), h) == fold_words(s.history@, after_vals),
        decreases s.history.len() - k,
    {
        proof {
            lemma_fold_words_step(s.history@, k as int, h);
        }
        h = mix_digest(h, s.history[k]);
        k = k + 1;
    }
    assert(s.history@.skip(k as int) =~= Seq::<u64>::empty());
    h
}

/// Deep copy of a state, with every field's value preserved.
pub fn clone_state(s: &State) -> (r: State)
    ensures
        r.slot == s.slot,
        r.randao == s.randao,
        r.validators@ == s.validators@,
        r.history@ == s.history@,
        r.justified == s.justified,
        r.finalized == s.finalized,
{
    let mut validators: Vec<Validator> = Vec::new();
    let mut i: usize = 0;
    while i < s.validators.len()
        invariant
            0 <= i <= s.validators.len(),
            validators@ =~= s.validators@.take(i as int),
        decreases s.validators.len() - i,
    {
        validators.push(s.validators[i]);
        i = i + 1;
    }
    assert(validators@ =~= s.validators@);
    let mut history: Vec<u64> = Vec::new();
    let mut k: usize = 0;
    while k < s.history.len()
        invariant
            0 <= k <= s.history.len(),
            history@ =~= s.history@.take(k as int),
        decreases s.history.len() - k,
    {
        history.push(s.history[k]);
        k = k + 1;
    }
    assert(history@ =~= s.history@);
    State {
        slot: s.slot,
        randao: s.randao,
        validators,
        history,
        justified: s.justified,
        finalized: s.finalized,
    }
}

/// Advance a state slot by slot to a target slot; only the slot changes.
pub fn process_slots(s: &mut State, target: u64)
    requires
        old(s).slot <= target,
    ensures
        final(s).slot == target,
        final(s).randao == old(s).randao,
        final(s).validators@ == old(s).validators@,
        final(s).history@ == old(s).history@,
        final(s).justified == old(s).justified,
        final(s).finalized == old(s).finalized,
{
    while s.slot < target
        invariant
            s.slot <= target,
            s.randao == old(s).randao,
            s.validators@ == old(s).validators@,
            s.history@ == old(s).history@,
            s.justified == old(s).justified,
            s.finalized == old(s).finalized,
        decreases target - s.slot,
    {
        s.slot = s.slot + 1;
    }
}

/// Validator entry created by a deposit.
pub open spec fn deposit_validator(d: Deposit) -> Validator {
    Validator { pubkey: d.pubkey, effective_balance: d.amount }
}

/// Registry after appending the validators of a run of deposits.
pub open spec fn with_deposits(vs: Seq<Validator>, ds: Seq<Deposit>) -> Seq<Validator> {
    vs + ds.map_values(|d: Deposit| deposit_validator(d))
}

/// Registry after zeroing the balance of one slashed index (out-of-range
/// indices are ignored).
pub open spec fn slash_one(vs: Seq<Validator>, i: u64) -> Seq<Validator> {
    if i < vs.len() {
        vs.update(i as int, Validator { pubkey: vs[i as int].pubkey, effective_balance: 0 })
    } else {
        vs
    }
}

/// Registry after applying a run of slashings in order.
pub open spec fn with_slashings(vs: Seq<Validator>, sl: Seq<u64>) -> Seq<Validator>
    decreases sl.len(),
{
    if sl.len() == 0 {
        vs
    } else {
        with_slashings(slash_one(vs, sl[0]), sl.drop_first())
    }
}

proof fn lemma_with_slashings_step(vs: Seq<Validator>, sl: Seq<u64>, i: int)
    requires
        0 <= i < sl.len(),
    ensures
        with_slashings(vs, sl.skip(i)) == with_slashings(slash_one(vs, sl[i]), sl.skip(i + 1)),
{
    assert(sl.skip(i).drop_first() =~= sl.skip(i + 1));
    assert(sl.skip(i)[0] == sl[i]);
}

/// Apply a block's body to a state already advanced to the block's slot:
/// mix the randao contribution, register deposits, apply slashings, and
/// append the block's root to the history.
pub fn apply_block_body(s: &mut State, b: &Block)
    requires
        old(s).slot == b.slot,
    ensures
        final(s).slot == b.slot,
        final(s).randao == mix(old(s).randao, b.randao),
        final(s).validators@ == with_slashings(
            with_deposits(old(s).validators@, b.deposits@),
            b.slashings@,
        ),
        final(s).history@ == old(s).history@.push(body_root_of(*b)),
        final(s).justified == old(s).justified,
        final(s).finalized == old(s).finalized,
{
    s.randao = mix_digest(s.randao, b.randao);
    let ghost vs0 = s.validators@;
    let mut i: usize = 0;
    while i < b.deposits.len()
        invariant
            0 <= i <= b.deposits.len(),
            s.validators@ =~= vs0 + b.deposits@.take(i as int).map_values(
                |d: Deposit| deposit_validator(d),
            ),
            s.slot == old(s).slot,
            s.randao == mix(old(s).randao, b.randao),
            s.history@ == old(s).history@,
            s.justified == old(s).justified,
            s.finalized == old(s).finalized,
        decreases b.deposits.len() - i,
    {
        s.validators.push(Validator {
            pubkey: b.deposits[i].pubkey,
            effective_balance: b.deposits[i].amount,
        });
        proof {
            assert(b.deposits@.take(i + 1).map_values(|d: Deposit| deposit_validator(d)) =~= b
                .deposits@
                .take(i as int)
                .map_values(|d: Deposit| deposit_validator(d))
                .push(deposit_validator(b.deposits@[i as int])));
        }
        i = i + 1;
    }
    proof {
        assert(b.deposits@.take(b.deposits@.len() as int) =~= b.deposits@);
        assert(s.validators@ =~= with_deposits(vs0, b.deposits@));
    }
    let ghost vs1 = s.validators@;
    proof {
        assert(b.slashings@.skip(0) =~= b.slashings@);
    }
    let mut k: usize = 0;
    while k < b.slashings.len()
        invariant
            0 <= k <= b.slashings.len(),
            with_slashings(s.validators@, b.slashings@.skip(k as int)) == with_slashings(
                vs1,
                b.slashings@,
            ),
            s.slot == old(s).slot,
            s.randao == mix(old(s).randao, b.randao),
            s.history@ == old(s).history@,
            s.justified == old(s).justified,
            s.finalized == old(s).finalized,
        decreases b.slashings.len() - k,
    {
        proof {
            lemma_with_slashings_step(s.validators@, b.slashings@, k as int);
        }
        let idx = b.slashings[k];
        if idx < s.validators.len() as u64 {
            let pk = s.validators[idx as usize].pubkey;
            s.validators.set(idx as usize, Validator { pubkey: pk, effective_balance: 0 });
        }
        k = k + 1;
    }
    assert(b.slashings@.skip(k as int) =~= Seq::<u64>::empty());
    let root = compute_body_root(b);
    s.history.push(root);
}

/// Root of the state the transition yields from a pre-state and a block:
/// advance the pre-state to the block's slot, then apply the body.
pub open spec fn post_state_root(pre: State, b: Block) -> u64 {
    state_root_model(
        b.slot,
        mix(pre.randao, b.randao),
        with_slashings(with_deposits(pre.validators@, b.deposits@), b.slashings@),
        pre.history@.push(body_root_of(b)),
        pre.justified,
        pre.finalized,
    )
}

} // verus!
