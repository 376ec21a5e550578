//! The whole check of one claim: decode it, confirm the prior ledger's root,
//! pay the round's reward, confirm the updated ledger's root, and produce the
//! attestation.
use vstd::prelude::*;
use crate::codec::{
    attester_count, claim_attesters, claim_leaves, decode_claim, encode_attestation, well_formed,
    word_at,
};
use crate::error::RewardError;
use crate::ledger::{LeafView, redistribute, updated_ledger};
use crate::merkle::{merkle_root, merkle_tree_root};
use crate::word::{be_bytes, be_value, lemma_be_bytes_of_value, same_bytes};

verus! {

broadcast use vstd::array::group_array_axioms;

/// The share each attester of a well-formed claim `b` is paid, as a 32-byte word.
pub open spec fn claim_share(b: Seq<u8>) -> Seq<u8> {
    be_bytes(be_value(word_at(b, 0)) / attester_count(b), 32)
}

/// The ledger of a well-formed claim `b` after its round has been paid.
pub open spec fn claim_updated_ledger(b: Seq<u8>) -> Seq<LeafView> {
    updated_ledger(claim_leaves(b), claim_attesters(b), claim_share(b))
}

/// What checking the claim `b` gives: the 96-byte attestation of old root,
/// new root and reward, or the first failure in the order decode, old root,
/// attesters, new root.
pub open spec fn attestation(b: Seq<u8>) -> Result<Seq<u8>, RewardError> {
    if !well_formed(b) {
        Err(RewardError::MalformedInput)
    } else if merkle_root(claim_leaves(b)) != word_at(b, 32) {
        Err(RewardError::OldRootMismatch)
    } else if attester_count(b) == 0 {
        Err(RewardError::NoAttesters)
    } else if merkle_root(claim_updated_ledger(b)) != word_at(b, 64) {
        Err(RewardError::NewRootMismatch)
    } else {
        Ok(word_at(b, 32) + word_at(b, 64) + word_at(b, 0))
    }
}

/// Determinism: equal inputs give equal roots and equal attestations, since
/// the contracts of `merkle_tree_root` and `attest` fix each result as a
/// function of its input alone.
pub proof fn lemma_deterministic(
    leaves1: Seq<LeafView>,
    leaves2: Seq<LeafView>,
    b1: Seq<u8>,
    b2: Seq<u8>,
)
    requires
        leaves1 == leaves2,
        b1 == b2,
    ensures
        merkle_root(leaves1) == merkle_root(leaves2),
        attestation(b1) == attestation(b2),
{
}

/// Round trip: a well-formed claim with at least one attester, whose old root
/// is the root of its prior ledger and whose new root is the root of that
/// ledger after the round, is attested, with its old root, new root and reward.
pub proof fn lemma_round_trip(b: Seq<u8>)
    requires
        well_formed(b),
        attester_count(b) > 0,
        word_at(b, 32) == merkle_root(claim_leaves(b)),
        word_at(b, 64) == merkle_root(claim_updated_ledger(b)),
    ensures
        attestation(b) == Ok::<Seq<u8>, RewardError>(
            merkle_root(claim_leaves(b)) + merkle_root(claim_updated_ledger(b)) + word_at(b, 0),
        ),
{
}

/// Checks the claim `input` and returns the attestation to commit.
pub fn attest(input: &Vec<u8>) -> (r: Result<Vec<u8>, RewardError>)
    ensures
        match r {
            Ok(out) => attestation(input@) == Ok::<Seq<u8>, RewardError>(out@),
            Err(e) => attestation(input@) == Err::<Seq<u8>, RewardError>(e),
        },
{
    let claim = match decode_claim(input) {
        Ok(c) => c,
        Err(e) => return Err(e),
    };
    let old_root = merkle_tree_root(&claim.leaves);
    if !same_bytes(&old_root, &claim.old_root) {
        return Err(RewardError::OldRootMismatch);
    }
    if claim.attesters.len() == 0 {
        return Err(RewardError::NoAttesters);
    }
    let (share, updated) = redistribute(&claim.leaves, &claim.attesters, &claim.reward);
    proof {
        lemma_be_bytes_of_value(share@);
        assert(share@ == claim_share(input@));
    }
    let new_root = merkle_tree_root(&updated);
    if !same_bytes(&new_root, &claim.new_root) {
        return Err(RewardError::NewRootMismatch);
    }
    Ok(encode_attestation(&claim.old_root, &claim.new_root, &claim.reward))
}

} // verus!
