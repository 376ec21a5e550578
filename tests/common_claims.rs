use alloy_primitives::keccak256;
use reward_distribution::attest::attest;
use reward_distribution::codec::{decode_claim, encode_attestation};
use reward_distribution::error::RewardError;
use reward_distribution::ledger::{apply_share, has_account, redistribute, reward_share, Leaf};
use reward_distribution::merkle::merkle_tree_root;

fn word(v: u64) -> [u8; 32] {
    let mut w = [0u8; 32];
    w[24..].copy_from_slice(&v.to_be_bytes());
    w
}

fn addr(tag: u8) -> [u8; 20] {
    let mut a = [0u8; 20];
    a[0] = 0xAA;
    a[19] = tag;
    a
}

fn leaf(tag: u8, earned: u64) -> Leaf {
    Leaf { account: addr(tag), earned: word(earned) }
}

fn h_leaf(l: &Leaf) -> [u8; 32] {
    let mut d = Vec::new();
    d.extend_from_slice(&l.account);
    d.extend_from_slice(&l.earned);
    keccak256(&d).0
}

fn h_pair(a: &[u8; 32], b: &[u8; 32]) -> [u8; 32] {
    let mut d = Vec::new();
    d.extend_from_slice(a);
    d.extend_from_slice(b);
    keccak256(&d).0
}

fn value(w: &[u8; 32]) -> u128 {
    assert!(w[..16].iter().all(|b| *b == 0));
    let mut v: u128 = 0;
    for b in &w[16..] {
        v = v * 256 + *b as u128;
    }
    v
}

/// Packs a claim: header, then the attester section, then the leaf section.
fn pack(reward: u64, old_root: [u8; 32], new_root: [u8; 32], attesters: &[[u8; 20]], leaves: &[Leaf]) -> Vec<u8> {
    let ao = 160u64;
    let lo = ao + 32 + 32 * attesters.len() as u64;
    let mut b = Vec::new();
    b.extend_from_slice(&word(reward));
    b.extend_from_slice(&old_root);
    b.extend_from_slice(&new_root);
    b.extend_from_slice(&word(ao));
    b.extend_from_slice(&word(lo));
    b.extend_from_slice(&word(attesters.len() as u64));
    for a in attesters {
        b.extend_from_slice(&[0u8; 12]);
        b.extend_from_slice(a);
    }
    b.extend_from_slice(&word(leaves.len() as u64));
    for l in leaves {
        b.extend_from_slice(&[0u8; 12]);
        b.extend_from_slice(&l.account);
        b.extend_from_slice(&l.earned);
    }
    b
}

fn expected_output(old_root: &[u8; 32], new_root: &[u8; 32], reward: u64) -> Vec<u8> {
    let mut out = Vec::new();
    out.extend_from_slice(old_root);
    out.extend_from_slice(new_root);
    out.extend_from_slice(&word(reward));
    out
}

#[test]
fn empty_ledger_root_is_zero() {
    assert_eq!(merkle_tree_root(&vec![]), [0u8; 32]);
}

#[test]
fn single_leaf_root_is_hash_of_account_and_earned() {
    let l = leaf(1, 12345);
    let mut d = Vec::new();
    d.extend_from_slice(&addr(1));
    d.extend_from_slice(&word(12345));
    assert_eq!(d.len(), 52);
    assert_eq!(merkle_tree_root(&vec![l]), keccak256(&d).0);
}

#[test]
fn two_leaf_root_pairs_in_order() {
    let (a, b) = (leaf(1, 5), leaf(2, 6));
    let expected = h_pair(&h_leaf(&a), &h_leaf(&b));
    assert_eq!(merkle_tree_root(&vec![a, b]), expected);
    assert_ne!(merkle_tree_root(&vec![b, a]), expected);
}

#[test]
fn three_leaf_root_carries_last_hash_first() {
    let (a, b, c) = (leaf(1, 10), leaf(2, 20), leaf(3, 30));
    let expected = h_pair(&h_leaf(&c), &h_pair(&h_leaf(&a), &h_leaf(&b)));
    assert_eq!(merkle_tree_root(&vec![a, b, c]), expected);
    let balanced = h_pair(&h_pair(&h_leaf(&a), &h_leaf(&b)), &h_leaf(&c));
    assert_ne!(merkle_tree_root(&vec![a, b, c]), balanced);
}

#[test]
fn five_leaf_root_follows_carry_rule() {
    let ls: Vec<Leaf> = (1..=5).map(|i| leaf(i, i as u64 * 7)).collect();
    let h: Vec<[u8; 32]> = ls.iter().map(h_leaf).collect();
    // level 2: [h4, H(h0,h1), H(h2,h3)]; level 3: [H(h2,h3), H(h4, H(h0,h1))]
    let p01 = h_pair(&h[0], &h[1]);
    let p23 = h_pair(&h[2], &h[3]);
    let l3b = h_pair(&h[4], &p01);
    let expected = h_pair(&p23, &l3b);
    assert_eq!(merkle_tree_root(&ls), expected);
}

#[test]
fn roots_are_deterministic() {
    let ls = vec![leaf(1, 1), leaf(2, 2), leaf(3, 3)];
    assert_eq!(merkle_tree_root(&ls), merkle_tree_root(&ls));
    let x = addr(9);
    let old = merkle_tree_root(&ls);
    let mut upd = ls.clone();
    upd.push(Leaf { account: x, earned: word(10) });
    let input = pack(10, old, merkle_tree_root(&upd), &[x], &ls);
    let first = attest(&input);
    let second = attest(&input);
    assert_eq!(first, second);
    assert!(first.is_ok());
}

#[test]
fn round_trip_accepts_independently_computed_roots() {
    let prior = vec![leaf(1, 100), leaf(2, 200), leaf(3, 300), leaf(4, 400)];
    let attesters = [addr(2), addr(5), addr(6)];
    let old = merkle_tree_root(&prior);
    // the updated ledger worked out by hand: existing leaves unchanged, new attesters appended with the share
    let share = 90 / 3;
    let mut expected_ledger = prior.clone();
    for a in &attesters {
        if !prior.iter().any(|l| l.account == *a) {
            expected_ledger.push(Leaf { account: *a, earned: word(share) });
        }
    }
    let h: Vec<[u8; 32]> = expected_ledger.iter().map(h_leaf).collect();
    assert_eq!(h.len(), 6);
    // 6 -> 3 -> [c, H(a,b)] -> 1
    let a1 = h_pair(&h[0], &h[1]);
    let b1 = h_pair(&h[2], &h[3]);
    let c1 = h_pair(&h[4], &h[5]);
    let new = h_pair(&c1, &h_pair(&a1, &b1));
    let input = pack(90, old, new, &attesters, &prior);
    assert_eq!(attest(&input), Ok(expected_output(&old, &new, 90)));
}

#[test]
fn redistribution_conserves_shares() {
    let prior = vec![leaf(1, 1000), leaf(2, 7)];
    let attesters = vec![addr(1), addr(3), addr(4), addr(3)];
    let (share, updated) = redistribute(&prior, &attesters, &word(41));
    assert_eq!(value(&share), 10);
    let before: u128 = prior.iter().map(|l| value(&l.earned)).sum();
    let after: u128 = updated.iter().map(|l| value(&l.earned)).sum();
    // three attesters are new to the ledger (one of them listed twice)
    assert_eq!(after - before, 10 * 3);
    assert_eq!(updated.len(), 5);
}

#[test]
fn scenario_even_split_into_empty_ledger() {
    let (x, y) = (addr(0x11), addr(0x22));
    let (share, updated) = redistribute(&vec![], &vec![x, y], &word(100));
    assert_eq!(share, word(50));
    assert_eq!(updated.len(), 2);
    assert_eq!(updated[0].account, x);
    assert_eq!(updated[0].earned, word(50));
    assert_eq!(updated[1].account, y);
    assert_eq!(updated[1].earned, word(50));
    let new = merkle_tree_root(&updated);
    let old = merkle_tree_root(&vec![]);
    assert_eq!(old, [0u8; 32]);
    let input = pack(100, old, new, &[x, y], &[]);
    assert_eq!(attest(&input), Ok(expected_output(&[0u8; 32], &new, 100)));
}

#[test]
fn scenario_truncated_share_is_accepted() {
    let (x, y, z) = (addr(1), addr(2), addr(3));
    let (share, updated) = redistribute(&vec![], &vec![x, y, z], &word(7));
    assert_eq!(share, word(2));
    let total: u128 = updated.iter().map(|l| value(&l.earned)).sum();
    assert_eq!(total, 6);
    let new = merkle_tree_root(&updated);
    let input = pack(7, [0u8; 32], new, &[x, y, z], &[]);
    assert_eq!(attest(&input), Ok(expected_output(&[0u8; 32], &new, 7)));
}

#[test]
fn truncated_attester_array_is_malformed() {
    let attesters = [addr(1), addr(2), addr(3)];
    let full = pack(9, [0u8; 32], [0u8; 32], &attesters, &[]);
    // cut inside the second attester slot
    let cut = full[..160 + 32 + 32 + 10].to_vec();
    assert!(matches!(decode_claim(&cut), Err(RewardError::MalformedInput)));
    assert_eq!(attest(&cut), Err(RewardError::MalformedInput));
}

#[test]
fn short_header_is_malformed() {
    assert_eq!(attest(&vec![0u8; 159]), Err(RewardError::MalformedInput));
    assert_eq!(attest(&vec![]), Err(RewardError::MalformedInput));
}

#[test]
fn offset_past_end_is_malformed() {
    let mut b = pack(9, [0u8; 32], [0u8; 32], &[addr(1)], &[]);
    b[96..128].copy_from_slice(&[0xFF; 32]);
    assert_eq!(attest(&b), Err(RewardError::MalformedInput));
    let mut c = pack(9, [0u8; 32], [0u8; 32], &[addr(1)], &[]);
    // leaf count far larger than the buffer
    let lo = 160 + 64;
    c[lo..lo + 32].copy_from_slice(&word(1 << 40));
    assert_eq!(attest(&c), Err(RewardError::MalformedInput));
}

#[test]
fn decode_reads_every_field() {
    let prior = vec![leaf(7, 70), leaf(8, 80)];
    let b = pack(5, word(1), word(2), &[addr(3), addr(4)], &prior);
    let c = decode_claim(&b).unwrap();
    assert_eq!(c.reward, word(5));
    assert_eq!(c.old_root, word(1));
    assert_eq!(c.new_root, word(2));
    assert_eq!(c.attesters, vec![addr(3), addr(4)]);
    assert_eq!(c.leaves.len(), 2);
    assert_eq!(c.leaves[1].account, addr(8));
    assert_eq!(c.leaves[1].earned, word(80));
}

#[test]
fn old_root_mismatch_is_rejected() {
    let prior = vec![leaf(1, 1)];
    let b = pack(10, [0u8; 32], [0u8; 32], &[addr(2)], &prior);
    assert_eq!(attest(&b), Err(RewardError::OldRootMismatch));
}

#[test]
fn empty_attester_set_is_rejected() {
    let prior = vec![leaf(1, 1)];
    let old = merkle_tree_root(&prior);
    let b = pack(10, old, old, &[], &prior);
    assert_eq!(attest(&b), Err(RewardError::NoAttesters));
}

#[test]
fn new_root_mismatch_is_rejected() {
    let prior = vec![leaf(1, 1)];
    let old = merkle_tree_root(&prior);
    let b = pack(10, old, old, &[addr(2)], &prior);
    assert_eq!(attest(&b), Err(RewardError::NewRootMismatch));
}

#[test]
fn existing_attester_is_not_paid_again() {
    let prior = vec![leaf(1, 5)];
    let updated = apply_share(&prior, &vec![addr(1), addr(2)], &word(3));
    assert_eq!(updated.len(), 2);
    assert_eq!(updated[0].earned, word(5));
    assert_eq!(updated[1].account, addr(2));
    assert_eq!(updated[1].earned, word(3));
    assert!(has_account(&prior, &addr(1)));
    assert!(!has_account(&prior, &addr(2)));
}

#[test]
fn share_divides_full_width_reward() {
    let mut big = [0xFFu8; 32];
    big[0] = 0x80;
    let s = reward_share(&big, 2);
    let mut expected = [0xFFu8; 32];
    expected[0] = 0x40;
    expected[1] = 0x7F;
    assert_eq!(s, expected);
    assert_eq!(reward_share(&word(100), 1), word(100));
    assert_eq!(reward_share(&word(99), 100), word(0));
}

#[test]
fn attestation_layout_is_old_new_reward() {
    let out = encode_attestation(&word(1), &word(2), &word(3));
    assert_eq!(out.len(), 96);
    assert_eq!(out, expected_output(&word(1), &word(2), 3));
}
