//! Verified core of the authenticated storage benchmarks: an in-memory
//! Merkle Patricia trie with its encoding, root hash and store writes; a
//! journaling overlay database over a window of recent blocks; tree indices
//! and names of the multipoint trees; a byte-level serialisation format; run
//! options, workload batches and store counters.

pub mod nibble;
pub mod amt_node;
pub mod serde;
pub mod tree_name;
pub mod trie_node;
pub mod rain_mpt;
pub mod hasher;
pub mod kv;
pub mod rlp_codec;
pub mod trie_store;
pub mod options;
pub mod tasks;
pub mod backend;
pub mod memory_db;
pub mod journal;
pub mod rlp_decode;
pub mod trie_canon;
pub mod blake2_hasher;
pub mod amt_smp;
pub mod trie_decode;
