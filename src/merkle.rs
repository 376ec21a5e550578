//! The Merkle commitment to an ordered ledger.
//!
//! Leaves are hashed one by one; each reduction step carries the last hash of
//! an odd-length level unchanged to the front of the next level, then hashes
//! adjacent pairs in order.
use vstd::prelude::*;
use crate::word::{append_bytes, Word};
use crate::ledger::{Leaf, LeafView, ledger_view};

verus! {

broadcast use vstd::array::group_array_axioms;

/// The Keccak-256 digest of a byte string.
pub uninterp spec fn keccak_of(data: Seq<u8>) -> Seq<u8>;

/// Relies on alloy_primitives::keccak256: the Keccak-256 digest of the bytes
/// given, a function of those bytes alone.
#[verifier::external_body]
fn keccak(data: &Vec<u8>) -> (r: Word)
    ensures
        r@ == keccak_of(data@),
{
    alloy_primitives::keccak256(data).0
}

/// The bytes a leaf is hashed from: its account, then `earned` in 32 big-endian bytes.
pub open spec fn leaf_preimage(l: LeafView) -> Seq<u8> {
    l.account + l.earned
}

/// The hash of one leaf.
pub open spec fn leaf_hash(l: LeafView) -> Seq<u8> {
    keccak_of(leaf_preimage(l))
}

/// The hash of two adjacent nodes.
pub open spec fn node_hash(a: Seq<u8>, b: Seq<u8>) -> Seq<u8> {
    keccak_of(a + b)
}

/// The hashes of adjacent pairs of `level`, in order; an odd last element is left out.
pub open spec fn paired(level: Seq<Seq<u8>>) -> Seq<Seq<u8>> {
    Seq::new(level.len() / 2, |i: int| node_hash(level[2 * i], level[2 * i + 1]))
}

/// One reduction step: the last hash of an odd-length level first, then the pair hashes.
pub open spec fn next_level(level: Seq<Seq<u8>>) -> Seq<Seq<u8>> {
    if level.len() % 2 == 1 {
        seq![level.last()] + paired(level)
    } else {
        paired(level)
    }
}

/// Reduces a non-empty level until one hash is left.
pub open spec fn reduce(level: Seq<Seq<u8>>) -> Seq<u8>
    decreases level.len(),
{
    if level.len() <= 1 {
        level[0]
    } else {
        reduce(next_level(level))
    }
}

/// The all-zero root.
pub open spec fn zero_root() -> Seq<u8> {
    Seq::new(32, |i: int| 0u8)
}

/// The leaf hashes of a ledger, in its order.
pub open spec fn leaf_hashes(leaves: Seq<LeafView>) -> Seq<Seq<u8>> {
    leaves.map_values(|l: LeafView| leaf_hash(l))
}

/// The Merkle root of a ledger: all zero for an empty one.
pub open spec fn merkle_root(leaves: Seq<LeafView>) -> Seq<u8> {
    if leaves.len() == 0 {
        zero_root()
    } else {
        reduce(leaf_hashes(leaves))
    }
}

/// The root of an empty ledger is all zero.
pub proof fn lemma_empty_root()
    ensures
        merkle_root(Seq::<LeafView>::empty()) == zero_root(),
{
}

/// The root of a one-leaf ledger is the hash of its account followed by its
/// 32-byte big-endian `earned`.
pub proof fn lemma_single_leaf_root(l: LeafView)
    ensures
        merkle_root(seq![l]) == keccak_of(l.account + l.earned),
{
    assert(leaf_hashes(seq![l]) =~= seq![leaf_hash(l)]);
}

/// For three leaves `[a, b, c]` the last leaf hash is carried to the front of
/// the second level, `[h(c), H(h(a) || h(b))]`, and the root is the hash of
/// those two.
pub proof fn lemma_three_leaf_root(a: LeafView, b: LeafView, c: LeafView)
    ensures
        next_level(leaf_hashes(seq![a, b, c])) == seq![
            leaf_hash(c),
            node_hash(leaf_hash(a), leaf_hash(b)),
        ],
        merkle_root(seq![a, b, c]) == node_hash(leaf_hash(c), node_hash(leaf_hash(a), leaf_hash(b))),
{
    let l1 = leaf_hashes(seq![a, b, c]);
    assert(l1 =~= seq![leaf_hash(a), leaf_hash(b), leaf_hash(c)]);
    let l2 = next_level(l1);
    assert(l2 =~= seq![leaf_hash(c), node_hash(leaf_hash(a), leaf_hash(b))]);
    let l3 = next_level(l2);
    assert(l3 =~= seq![node_hash(leaf_hash(c), node_hash(leaf_hash(a), leaf_hash(b)))]);
    assert(reduce(l2) == reduce(l3));
}

/// The views of a sequence of words.
pub open spec fn words_view(s: Seq<Word>) -> Seq<Seq<u8>> {
    s.map_values(|w: Word| w@)
}

proof fn lemma_words_view_push(s: Seq<Word>, w: Word)
    ensures
        words_view(s.push(w)) == words_view(s).push(w@),
{
    assert(words_view(s.push(w)) =~= words_view(s).push(w@));
}

fn hash_leaf(l: &Leaf) -> (r: Word)
    ensures
        r@ == leaf_hash(l@),
{
    let mut buf: Vec<u8> = Vec::new();
    append_bytes(&mut buf, &l.account);
    append_bytes(&mut buf, &l.earned);
    keccak(&buf)
}

fn hash_pair(a: &Word, b: &Word) -> (r: Word)
    ensures
        r@ == node_hash(a@, b@),
{
    let mut buf: Vec<u8> = Vec::new();
    append_bytes(&mut buf, a);
    append_bytes(&mut buf, b);
    keccak(&buf)
}

fn reduce_step(level: &Vec<Word>) -> (r: Vec<Word>)
    requires
        level@.len() > 1,
    ensures
        words_view(r@) == next_level(words_view(level@)),
        r@.len() < level@.len(),
        r@.len() >= 1,
{
    let ghost lv = words_view(level@);
    let count = level.len();
    let mut next: Vec<Word> = Vec::new();
    if count % 2 == 1 {
        next.push(level[count - 1]);
    }
    let ghost head = words_view(next@);
    let mut i: usize = 0;
    while i < count / 2
        invariant
            count == level@.len(),
            lv == words_view(level@),
            head == words_view(next@.subrange(0, (count % 2) as int)),
            head == (if count % 2 == 1 { seq![lv.last()] } else { Seq::<Seq<u8>>::empty() }),
            i <= count / 2,
            next@.len() == count % 2 + i,
            words_view(next@) == head + paired(lv).subrange(0, i as int),
        decreases count / 2 - i,
    {
        let h = hash_pair(&level[2 * i], &level[2 * i + 1]);
        let ghost prev = next@;
        next.push(h);
        proof {
            lemma_words_view_push(prev, h);
            assert(paired(lv).subrange(0, i + 1) =~= paired(lv).subrange(0, i as int).push(h@));
        }
        i += 1;
    }
    assert(paired(lv).subrange(0, (count / 2) as int) =~= paired(lv));
    next
}

/// The Merkle root of `leaves`.
pub fn merkle_tree_root(leaves: &Vec<Leaf>) -> (r: Word)
    ensures
        r@ == merkle_root(ledger_view(leaves@)),
{
    if leaves.len() == 0 {
        let z: Word = [0u8; 32];
        assert(z@ =~= zero_root());
        return z;
    }
    let mut level: Vec<Word> = Vec::new();
    let mut i: usize = 0;
    while i < leaves.len()
        invariant
            i <= leaves@.len(),
            words_view(level@) == leaf_hashes(ledger_view(leaves@)).subrange(0, i as int),
        decreases leaves@.len() - i,
    {
        let h = hash_leaf(&leaves[i]);
        let ghost prev = level@;
        level.push(h);
        proof {
            lemma_words_view_push(prev, h);
            assert(leaf_hashes(ledger_view(leaves@)).subrange(0, i + 1) =~= leaf_hashes(ledger_view(leaves@)).subrange(
                0,
                i as int,
            ).push(h@));
        }
        i += 1;
    }
    assert(words_view(level@) =~= leaf_hashes(ledger_view(leaves@)));
    while level.len() > 1
        invariant
            level@.len() >= 1,
            reduce(words_view(level@)) == merkle_root(ledger_view(leaves@)),
        decreases level@.len(),
    {
        level = reduce_step(&level);
    }
    level[0]
}

} // verus!
