//! A verified reward ledger: decoding of the packed claim, the Merkle
//! commitment over ledger leaves, the equal split of a round's reward among
//! attesters, and the fixed-width attestation that is committed on success.
pub mod word;
pub mod error;
pub mod codec;
pub mod ledger;
pub mod merkle;
pub mod attest;
