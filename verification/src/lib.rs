//! Solana account snapshots in a shared-memory region: the format of the
//! region, the stores a writer issues to update it, and the decisions a reader
//! takes to obtain consistent snapshots from it.
#![allow(unused_imports)]

pub mod bytes;
pub mod clock;
pub mod consistency;
pub mod creation;
pub mod error;
pub mod header;
pub mod index;
pub mod laws;
pub mod layout;
pub mod memory;
pub mod operations;
pub mod pre_accounts_collector;
pub mod reader;
pub mod records;
pub mod region;
pub mod runs;
pub mod seqlock;
pub mod snapshot;
pub mod table;
pub mod writer;
