//! A ledger of storage writes: the log of every write to every storage slot,
//! the index of the keys that were ever truly created, and what is answered
//! from the two: the value of a key as of a miniblock, the plan that reverts
//! the state to an earlier batch, and the chunks from which the state tree is
//! rebuilt.

pub mod basic_types;
pub mod blocks_web3_dal;
pub mod byte_order;
pub mod error;
pub mod hashing;
pub mod keyed_map;
pub mod laws;
pub mod ledger;
pub mod models;
pub mod sequences;
pub mod storage;
pub mod storage_logs_dal;
