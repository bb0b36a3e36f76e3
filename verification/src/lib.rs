//! Sharded trie state with online resharding: shard layouts and their
//! derivation, versioned epoch configuration, the shard-keyed node store
//! with parent fallback, and the coordinator that activates a split.

pub mod account;
pub mod account_id;
pub mod epoch_config;
pub mod error;
pub mod hash;
pub mod resharder;
pub mod shard_layout;
pub mod shard_uid;
pub mod storage_format;
pub mod trie_store;
pub mod witness_adapter;
