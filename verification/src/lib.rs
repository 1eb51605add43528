//! Verification of cross-chain transfer proofs.
//!
//! A proof carries a previous block hash, a claimed block hash, and an
//! ordered list of transactions.  The claimed hash is accepted exactly when
//! it equals the root of a two-level Merkle commitment: a first tree over
//! the canonicalized transaction fields, and a second tree over the
//! previous block hash paired with the first tree's root.

pub mod commitment;
pub mod digits;
pub mod hashing;

pub use commitment::{expected_block_hash, leaves_of, spec_valid, tx_values, Proof, Transaction};
pub use digits::{dec_digits, dec_int, digit_char, i32_to_dec, u64_to_dec};
pub use hashing::merkle_root_of;
