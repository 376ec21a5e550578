//! Why a claim was not attested.
use vstd::prelude::*;

verus! {

/// The ways a claim fails; on any of them nothing is committed.
#[derive(Clone, Copy, Debug, PartialEq, Eq, Structural)]
pub enum RewardError {
    /// An offset or count of the input points past its end.
    MalformedInput,
    /// The prior ledger's root is not the claimed old root.
    OldRootMismatch,
    /// There are no attesters to divide the reward among.
    NoAttesters,
    /// The updated ledger's root is not the claimed new root.
    NewRootMismatch,
}

} // verus!
