//! Append-only registry mapping validator index to public key.
//!
//! A validator index is a permanent identity: entries are never reordered,
//! removed, or mutated once written, and the length never decreases.

use vstd::prelude::*;
use crate::state::{State, Validator};

verus! {

/// Failure of a positional lookup.
#[derive(Clone, Copy, PartialEq, Eq, Structural, Debug)]
pub enum PubkeyCacheError {
    UnknownValidator,
}

/// Append-only index-to-pubkey registry.
pub struct ValidatorPubkeyCache {
    pub pubkeys: Vec<u64>,
}

/// Registry contents after ingesting a validator registry: every index
/// beyond the current length is appended, nothing else changes.
pub open spec fn ingested(keys: Seq<u64>, validators: Seq<Validator>) -> Seq<u64> {
    if validators.len() > keys.len() {
        keys + validators.skip(keys.len() as int).map_values(|v: Validator| v.pubkey)
    } else {
        keys
    }
}

impl ValidatorPubkeyCache {
    /// An empty registry.
    pub fn new() -> (r: Self)
        ensures
            r.pubkeys@.len() == 0,
    {
        ValidatorPubkeyCache { pubkeys: Vec::new() }
    }

    /// Number of registered validators.
    pub fn len(&self) -> (n: usize)
        ensures
            n == self.pubkeys@.len(),
    {
        self.pubkeys.len()
    }

    /// Direct positional lookup; fails exactly when the index is beyond the
    /// registry's length.
    pub fn get(&self, index: u64) -> (r: Result<u64, PubkeyCacheError>)
        ensures
            index < self.pubkeys@.len() ==> r == Ok::<u64, PubkeyCacheError>(
                self.pubkeys@[index as int],
            ),
            index >= self.pubkeys@.len() ==> r == Err::<u64, PubkeyCacheError>(
                PubkeyCacheError::UnknownValidator,
            ),
    {
        if index < self.pubkeys.len() as u64 {
            Ok(self.pubkeys[index as usize])
        } else {
            Err(PubkeyCacheError::UnknownValidator)
        }
    }

    /// Scan a state's validator registry and append the pubkeys of every
    /// index beyond the cache's current length.
    pub fn ingest(&mut self, state: &State)
        ensures
            final(self).pubkeys@ == ingested(old(self).pubkeys@, state.validators@),
    {
        let ghost keys0 = self.pubkeys@;
        if state.validators.len() <= self.pubkeys.len() {
            assert(self.pubkeys@ =~= ingested(keys0, state.validators@));
            return ;
        }
        let mut i: usize = self.pubkeys.len();
        while i < state.validators.len()
            invariant
                keys0.len() <= i <= state.validators.len(),
                keys0.len() < state.validators.len(),
                self.pubkeys@ =~= keys0 + state.validators@.subrange(
                    keys0.len() as int,
                    i as int,
                ).map_values(|v: Validator| v.pubkey),
            decreases state.validators.len() - i,
        {
            self.pubkeys.push(state.validators[i].pubkey);
            proof {
                assert(state.validators@.subrange(keys0.len() as int, i + 1).map_values(
                    |v: Validator| v.pubkey,
                ) =~= state.validators@.subrange(keys0.len() as int, i as int).map_values(
                    |v: Validator| v.pubkey,
                ).push(state.validators@[i as int].pubkey));
            }
            i = i + 1;
        }
        proof {
            assert(state.validators@.subrange(keys0.len() as int, state.validators@.len() as int)
                =~= state.validators@.skip(keys0.len() as int));
            assert(self.pubkeys@ =~= ingested(keys0, state.validators@));
        }
    }
}

/// Law: ingesting never shortens the registry and never rewrites an entry,
/// so a lookup at any index below the old length keeps answering the same
/// key after any number of further ingests.
pub proof fn lemma_pubkey_cache_append_only(keys: Seq<u64>, validators: Seq<Validator>)
    ensures
        ingested(keys, validators).len() >= keys.len(),
        forall|i: int| 0 <= i < keys.len() ==> ingested(keys, validators)[i] == keys[i],
{
}

} // verus!
