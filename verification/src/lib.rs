//! Verified building blocks of a small proof-of-work ledger: SHA3-256 hex
//! digests, Merkle trees over transactions, balance transfers, block sealing
//! with a nonce search and a miner election, and the whole program of each
//! of four ledgers, from its input lines to the text it prints.
//!
//! - `stage1`: blocks of three transactions chained by hash;
//! - `stage5`: blocks of four, transactions ordered by incentive, sealed by
//!   proof of work, miners with text ids;
//! - `arun`: as `stage5`, with one-character miner ids and a reward paid for
//!   every block;
//! - `modification`: as `arun`, with blocks of ten, transactions in input
//!   order and Merkle levels that pair a lone node with itself.

pub mod digest;
pub mod text;
pub mod input;
pub mod merkle;
pub mod ledger;
pub mod mining;
pub mod sealing;
pub mod transaction;
pub mod stage1;
pub mod stage5;
pub mod arun;
pub mod modification;

pub use digest::calculate_hash;
