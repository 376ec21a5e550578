//! Ledger leaves and the split of a round's reward among attesters.
//!
//! Each attester's share is the reward divided by the number of attesters,
//! truncated; the remainder is dropped. Every leaf of the prior ledger is kept
//! unchanged and in order, and each attester whose account the prior ledger
//! does not hold gets a new leaf with the share, in attester order. An
//! attester already in the prior ledger is given nothing this round: the
//! ledger's established roots were all computed under that rule, so changing
//! it would make them fail to verify.
use vstd::prelude::*;
use crate::word::{Address, Word, be_value, same_bytes, u256_div};

verus! {

/// One ledger entry: an account and the reward it has earned so far, as a
/// 256-bit unsigned integer in big-endian order.
#[derive(Clone, Copy, Debug)]
pub struct Leaf {
    pub account: Address,
    pub earned: Word,
}

/// What a leaf holds: its account's 20 bytes and the 32 big-endian bytes of `earned`.
pub struct LeafView {
    pub account: Seq<u8>,
    pub earned: Seq<u8>,
}

impl View for Leaf {
    type V = LeafView;

    open spec fn view(&self) -> LeafView {
        LeafView { account: self.account@, earned: self.earned@ }
    }
}

/// The view of each leaf of a ledger, in order.
pub open spec fn ledger_view(leaves: Seq<Leaf>) -> Seq<LeafView> {
    leaves.map_values(|l: Leaf| l@)
}

/// The view of each address of a list, in order.
pub open spec fn addresses_view(accounts: Seq<Address>) -> Seq<Seq<u8>> {
    accounts.map_values(|a: Address| a@)
}

/// Whether some leaf of `leaves` belongs to account `a`.
pub open spec fn holds_account(leaves: Seq<LeafView>, a: Seq<u8>) -> bool {
    exists|j: int| 0 <= j < leaves.len() && leaves[j].account == a
}

/// The attesters, in order and with repeats, whose account `prior` does not hold.
pub open spec fn new_accounts(prior: Seq<LeafView>, attesters: Seq<Seq<u8>>) -> Seq<Seq<u8>> {
    attesters.filter(|a: Seq<u8>| !holds_account(prior, a))
}

/// A new leaf holding `share` for each of `accounts`, in order.
pub open spec fn share_leaves(accounts: Seq<Seq<u8>>, share: Seq<u8>) -> Seq<LeafView> {
    accounts.map_values(|a: Seq<u8>| LeafView { account: a, earned: share })
}

/// The ledger after a round that pays `share` to each attester new to `prior`.
pub open spec fn updated_ledger(
    prior: Seq<LeafView>,
    attesters: Seq<Seq<u8>>,
    share: Seq<u8>,
) -> Seq<LeafView> {
    prior + share_leaves(new_accounts(prior, attesters), share)
}

/// The sum of `earned` over a ledger.
pub open spec fn total_earned(leaves: Seq<LeafView>) -> nat
    decreases leaves.len(),
{
    if leaves.len() == 0 {
        0
    } else {
        total_earned(leaves.drop_last()) + be_value(leaves.last().earned)
    }
}

proof fn lemma_total_concat(a: Seq<LeafView>, b: Seq<LeafView>)
    ensures
        total_earned(a + b) == total_earned(a) + total_earned(b),
    decreases b.len(),
{
    if b.len() == 0 {
        assert(a + b =~= a);
    } else {
        lemma_total_concat(a, b.drop_last());
        assert((a + b).drop_last() =~= a + b.drop_last());
    }
}

proof fn lemma_total_uniform(s: Seq<Seq<u8>>, share: Seq<u8>)
    ensures
        total_earned(share_leaves(s, share)) == s.len() * be_value(share),
    decreases s.len(),
{
    let m = share_leaves(s, share);
    let v = be_value(share);
    if s.len() > 0 {
        lemma_total_uniform(s.drop_last(), share);
        assert(m.drop_last() =~= share_leaves(s.drop_last(), share));
        assert(m.last().earned == share);
        let n = (s.len() - 1) as nat;
        assert(n * v + v == (n + 1) * v) by (nonlinear_arith);
        assert(total_earned(m) == s.len() * v);
    } else {
        assert(m.len() == 0);
        assert(0 * v == 0) by (nonlinear_arith);
        assert(total_earned(m) == s.len() * v);
    }
}

/// Conservation: a round adds exactly one share per new leaf to the ledger's
/// total, and leaves the earned amounts of the prior leaves as they were.
pub proof fn lemma_conservation(prior: Seq<LeafView>, attesters: Seq<Seq<u8>>, share: Seq<u8>)
    ensures
        total_earned(updated_ledger(prior, attesters, share)) == total_earned(prior) + be_value(share) * new_accounts(prior, attesters).len(),
{
    lemma_total_concat(prior, share_leaves(new_accounts(prior, attesters), share));
    lemma_total_uniform(new_accounts(prior, attesters), share);
}

/// Whether `leaves` holds a leaf for account `a`.
pub fn has_account(leaves: &Vec<Leaf>, a: &Address) -> (r: bool)
    ensures
        r == holds_account(ledger_view(leaves@), a@),
{
    let mut i: usize = 0;
    while i < leaves.len()
        invariant
            i <= leaves@.len(),
            forall|j: int| 0 <= j < i ==> leaves@[j].account@ != a@,
        ensures
            forall|j: int| 0 <= j < leaves@.len() ==> leaves@[j].account@ != a@,
        decreases leaves@.len() - i,
    {
        if same_bytes(&leaves[i].account, a) {
            assert(ledger_view(leaves@)[i as int].account == a@);
            return true;
        }
        i += 1;
    }
    false
}

/// Each attester's share of `reward`: the reward divided by the number of
/// attesters, truncated.
pub fn reward_share(reward: &Word, attester_count: usize) -> (r: Word)
    requires
        attester_count > 0,
    ensures
        be_value(r@) == be_value(reward@) / (attester_count as nat),
{
    u256_div(*reward, attester_count)
}

proof fn lemma_ledger_view_push(s: Seq<Leaf>, l: Leaf)
    ensures
        ledger_view(s.push(l)) == ledger_view(s).push(l@),
{
    assert(ledger_view(s.push(l)) =~= ledger_view(s).push(l@));
}

/// The ledger after a round that pays `share` to each attester new to `prior`.
pub fn apply_share(prior: &Vec<Leaf>, attesters: &Vec<Address>, share: &Word) -> (r: Vec<Leaf>)
    ensures
        ledger_view(r@) == updated_ledger(ledger_view(prior@), addresses_view(attesters@), share@),
{
    let ghost pv = ledger_view(prior@);
    let ghost av = addresses_view(attesters@);
    let mut r: Vec<Leaf> = Vec::new();
    let mut i: usize = 0;
    while i < prior.len()
        invariant
            i <= prior@.len(),
            r@ == prior@.subrange(0, i as int),
        decreases prior@.len() - i,
    {
        r.push(prior[i]);
        i += 1;
        assert(r@ =~= prior@.subrange(0, i as int));
    }
    assert(prior@.subrange(0, prior@.len() as int) =~= prior@);
    let ghost pred = |a: Seq<u8>| !holds_account(pv, a);
    let mut k: usize = 0;
    while k < attesters.len()
        invariant
            k <= attesters@.len(),
            pv == ledger_view(prior@),
            av == addresses_view(attesters@),
            pred == (|a: Seq<u8>| !holds_account(pv, a)),
            ledger_view(r@) == pv + share_leaves(av.subrange(0, k as int).filter(pred), share@),
        decreases attesters@.len() - k,
    {
        let a = attesters[k];
        let present = has_account(prior, &a);
        let ghost prev = r@;
        proof {
            reveal(Seq::filter);
            assert(av.subrange(0, k + 1).drop_last() =~= av.subrange(0, k as int));
            assert(av.subrange(0, k + 1).last() == a@);
        }
        if !present {
            let l = Leaf { account: a, earned: *share };
            r.push(l);
            proof {
                lemma_ledger_view_push(prev, l);
            }
            assert(ledger_view(r@) =~= pv + share_leaves(
                av.subrange(0, k + 1).filter(pred),
                share@,
            ));
        } else {
            assert(ledger_view(r@) =~= pv + share_leaves(
                av.subrange(0, k + 1).filter(pred),
                share@,
            ));
        }
        k += 1;
    }
    assert(av.subrange(0, attesters@.len() as int) =~= av);
    r
}

/// Splits `reward` among `attesters` and applies the split to `prior`,
/// returning the share and the updated ledger.
pub fn redistribute(prior: &Vec<Leaf>, attesters: &Vec<Address>, reward: &Word) -> (r: (
    Word,
    Vec<Leaf>,
))
    requires
        attesters@.len() > 0,
    ensures
        be_value(r.0@) == be_value(reward@) / (attesters@.len() as nat),
        ledger_view(r.1@) == updated_ledger(
            ledger_view(prior@),
            addresses_view(attesters@),
            r.0@,
        ),
{
    let share = reward_share(reward, attesters.len());
    let updated = apply_share(prior, attesters, &share);
    (share, updated)
}

} // verus!
