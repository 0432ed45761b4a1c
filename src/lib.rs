//! Deterministic state-transition core of a blockchain application layer.
//!
//! - `gas`: gas trackers with an optional limit, and the linear cost schedule.
//! - `store`: an in-memory key-value store and the copy-on-write `Buffer`
//!   laid over it, with nested scopes that are kept or dropped.
//! - `merkle`: node hashing and the Merkle tree over hashed keys, with
//!   inclusion proofs.
//! - `db`: the versioned store that commits states and their root hashes.
//! - `chain`, `app`: blocks, transactions, messages and their outcomes; the
//!   per-transaction pipeline (fee withholding, messages, fee finalization).
//! - `facade`: the application calls (genesis, finalize, commit, check,
//!   simulate, query) and the cronjob schedule.
//! - `math`, `dec`, `coin`, `types`, `bytes`, `text`: the integer and
//!   fixed-point numbers, coins and the other values that messages carry.

pub mod gas;
pub mod store;
pub mod text;
pub mod math;
pub mod dec;
pub mod coin;
pub mod merkle;
pub mod chain;
pub mod app;
pub mod db;
pub mod facade;
pub mod types;
pub mod bytes;
