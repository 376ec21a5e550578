//! The packed claim that is read, and the attestation that is written.
//!
//! A claim starts with five 32-byte words: the reward, the old root, the new
//! root, and the byte offsets of the attester section and of the leaf section.
//! Each section starts with a 32-byte count. An attester entry is a 32-byte
//! slot with the address in its low 20 bytes; a leaf entry is such a slot
//! followed by the 32-byte `earned` amount. Numbers are big-endian.
use vstd::prelude::*;
use crate::error::RewardError;
use crate::ledger::{Leaf, LeafView, addresses_view, ledger_view};
use crate::word::{Address, Word, append_bytes, be_value, read_array, read_usize};

verus! {

broadcast use vstd::array::group_array_axioms;

/// The fields of a decoded claim.
pub struct Claim {
    pub reward: Word,
    pub old_root: Word,
    pub new_root: Word,
    pub attesters: Vec<Address>,
    pub leaves: Vec<Leaf>,
}

/// The 32 bytes of `b` that start at `pos`.
pub open spec fn word_at(b: Seq<u8>, pos: int) -> Seq<u8> {
    b.subrange(pos, pos + 32)
}

/// The address in the low 20 bytes of the 32-byte slot of `b` at `pos`.
pub open spec fn slot_address(b: Seq<u8>, pos: int) -> Seq<u8> {
    b.subrange(pos + 12, pos + 32)
}

/// Where the attester section starts.
pub open spec fn attesters_offset(b: Seq<u8>) -> nat {
    be_value(word_at(b, 96))
}

/// Where the leaf section starts.
pub open spec fn leaves_offset(b: Seq<u8>) -> nat {
    be_value(word_at(b, 128))
}

/// The number of attester entries.
pub open spec fn attester_count(b: Seq<u8>) -> nat {
    be_value(word_at(b, attesters_offset(b) as int))
}

/// The number of leaf entries.
pub open spec fn leaf_count(b: Seq<u8>) -> nat {
    be_value(word_at(b, leaves_offset(b) as int))
}

/// Whether every read of the claim stays inside `b`.
pub open spec fn well_formed(b: Seq<u8>) -> bool {
    &&& b.len() >= 160
    &&& attesters_offset(b) + 32 <= b.len()
    &&& attesters_offset(b) + 32 + 32 * attester_count(b) <= b.len()
    &&& leaves_offset(b) + 32 <= b.len()
    &&& leaves_offset(b) + 32 + 64 * leaf_count(b) <= b.len()
}

/// The attesters' addresses of a well-formed claim, in order.
pub open spec fn claim_attesters(b: Seq<u8>) -> Seq<Seq<u8>> {
    Seq::new(attester_count(b), |i: int| slot_address(b, attesters_offset(b) + 32 * (i + 1)))
}

/// The prior ledger of a well-formed claim, in order.
pub open spec fn claim_leaves(b: Seq<u8>) -> Seq<LeafView> {
    Seq::new(
        leaf_count(b),
        |i: int|
            LeafView {
                account: slot_address(b, leaves_offset(b) + 32 + 64 * i),
                earned: word_at(b, leaves_offset(b) + 64 + 64 * i),
            },
    )
}

/// Whether `c` holds what the claim `b` spells.
pub open spec fn decodes_to(b: Seq<u8>, c: Claim) -> bool {
    &&& c.reward@ == word_at(b, 0)
    &&& c.old_root@ == word_at(b, 32)
    &&& c.new_root@ == word_at(b, 64)
    &&& addresses_view(c.attesters@) == claim_attesters(b)
    &&& ledger_view(c.leaves@) == claim_leaves(b)
}

/// A claim cut short inside its attester array is malformed: its offset and
/// count still read the same, and its last entries no longer fit.
pub proof fn lemma_truncated_attesters_malformed(b: Seq<u8>, k: int)
    requires
        well_formed(b),
        attesters_offset(b) + 32 <= k < attesters_offset(b) + 32 + 32 * attester_count(b),
    ensures
        !well_formed(b.subrange(0, k)),
{
    let t = b.subrange(0, k);
    if k >= 160 {
        assert(word_at(t, 96) =~= word_at(b, 96));
        let ao = attesters_offset(b) as int;
        assert(word_at(t, ao) =~= word_at(b, ao));
    }
}

/// Decodes a packed claim, or fails with `MalformedInput` when a read would
/// go past the end of `input`.
pub fn decode_claim(input: &Vec<u8>) -> (r: Result<Claim, RewardError>)
    ensures
        match r {
            Ok(c) => well_formed(input@) && decodes_to(input@, c),
            Err(e) => !well_formed(input@) && e == RewardError::MalformedInput,
        },
{
    let ghost b = input@;
    let n = input.len();
    if n < 160 {
        return Err(RewardError::MalformedInput);
    }
    let ao = match read_usize(input, 96) {
        Some(v) => v,
        None => return Err(RewardError::MalformedInput),
    };
    if ao > n - 32 {
        return Err(RewardError::MalformedInput);
    }
    let ac = match read_usize(input, ao) {
        Some(v) => v,
        None => return Err(RewardError::MalformedInput),
    };
    let a_len = match ac.checked_mul(32) {
        Some(v) => v,
        None => return Err(RewardError::MalformedInput),
    };
    if a_len > n - ao - 32 {
        return Err(RewardError::MalformedInput);
    }
    let lo = match read_usize(input, 128) {
        Some(v) => v,
        None => return Err(RewardError::MalformedInput),
    };
    if lo > n - 32 {
        return Err(RewardError::MalformedInput);
    }
    let lc = match read_usize(input, lo) {
        Some(v) => v,
        None => return Err(RewardError::MalformedInput),
    };
    let l_len = match lc.checked_mul(64) {
        Some(v) => v,
        None => return Err(RewardError::MalformedInput),
    };
    if l_len > n - lo - 32 {
        return Err(RewardError::MalformedInput);
    }
    assert(well_formed(b));
    let mut attesters: Vec<Address> = Vec::new();
    let mut i: usize = 0;
    while i < ac
        invariant
            b == input@,
            n == b.len(),
            ao == attesters_offset(b),
            ac == attester_count(b),
            ao + 32 + 32 * ac <= n,
            i <= ac,
            addresses_view(attesters@) == claim_attesters(b).subrange(0, i as int),
        decreases ac - i,
    {
        let a: Address = read_array(input, ao + 32 * (i + 1) + 12);
        let ghost prev = attesters@;
        attesters.push(a);
        proof {
            let ca = claim_attesters(b);
            assert(addresses_view(prev.push(a)) =~= addresses_view(prev).push(a@));
            assert(a@ =~= ca[i as int]);
            assert(ca.subrange(0, i + 1) =~= ca.subrange(0, i as int).push(ca[i as int]));
        }
        i += 1;
    }
    assert(claim_attesters(b).subrange(0, ac as int) =~= claim_attesters(b));
    let mut leaves: Vec<Leaf> = Vec::new();
    let mut j: usize = 0;
    while j < lc
        invariant
            b == input@,
            n == b.len(),
            lo == leaves_offset(b),
            lc == leaf_count(b),
            lo + 32 + 64 * lc <= n,
            j <= lc,
            ledger_view(leaves@) == claim_leaves(b).subrange(0, j as int),
        decreases lc - j,
    {
        let start = lo + 64 * j + 32;
        let account: Address = read_array(input, start + 12);
        let earned: Word = read_array(input, start + 32);
        let ghost prev = leaves@;
        let l = Leaf { account, earned };
        leaves.push(l);
        proof {
            let cl = claim_leaves(b);
            assert(ledger_view(prev.push(l)) =~= ledger_view(prev).push(l@));
            assert(l@.account =~= cl[j as int].account);
            assert(l@.earned =~= cl[j as int].earned);
            assert(cl.subrange(0, j + 1) =~= cl.subrange(0, j as int).push(cl[j as int]));
        }
        j += 1;
    }
    assert(claim_leaves(b).subrange(0, lc as int) =~= claim_leaves(b));
    let reward: Word = read_array(input, 0);
    let old_root: Word = read_array(input, 32);
    let new_root: Word = read_array(input, 64);
    Ok(Claim { reward, old_root, new_root, attesters, leaves })
}

/// The attestation: the old root, the new root and the reward, 96 bytes in all.
pub fn encode_attestation(old_root: &Word, new_root: &Word, reward: &Word) -> (r: Vec<u8>)
    ensures
        r@ == old_root@ + new_root@ + reward@,
        r@.len() == 96,
{
    let mut out: Vec<u8> = Vec::new();
    append_bytes(&mut out, old_root);
    append_bytes(&mut out, new_root);
    append_bytes(&mut out, reward);
    out
}

} // verus!
