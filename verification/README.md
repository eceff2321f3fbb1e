# asb

The verified core of a benchmarking tool for authenticated key-value
storage, written in Verus.

`src/` is the library. Every function in it carries a contract that Verus
proves:

- `nibble`, `trie_node`, `rain_mpt`, `trie_store`, `trie_canon`, `trie_decode`: a Merkle
  Patricia trie held in memory, its node encoding, root hash and the store
  writes of its commits; the encoding and root hash of a well-formed trie
  are determined by the map it holds; a stored node reads back.
- `journal`, `memory_db`, `rlp_decode`, `rlp_codec`, `kv`: a journaling
  overlay database that keeps a window of recent blocks, its journal records
  and their encoding, and the batches of writes it hands to a store.
- `amt_node`, `tree_name`, `serde`: tree indices of the multipoint trees and a
  byte-level serialisation format.
- `options`, `tasks`, `backend`, `amt_smp`: run options, workload batches and
  counters of stores and trees.
- `hasher`, `blake2_hasher`: the hash functions, called from their crates.

`app/` holds what talks to the outside world: the command line, logging,
stores, trace files and threads. `tests/` runs the library.
