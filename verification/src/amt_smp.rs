//! The counters that a run over a single multipoint tree keeps.

use vstd::prelude::*;

verus! {

/// Counts of the writes into a single multipoint tree: puts by kind, and
/// increments of keys, trees and key levels.
#[derive(Clone)]
pub struct AMTCounter {
    put_count: [u64; 4],
    inc_key_count: u64,
    inc_tree_count: u64,
    inc_key_level_count: u64,
}

impl AMTCounter {
    /// The counts: puts by kind, then increments of keys, trees and key
    /// levels.
    pub closed spec fn counts(self) -> (Seq<u64>, u64, u64, u64) {
        (self.put_count@, self.inc_key_count, self.inc_tree_count, self.inc_key_level_count)
    }
}

impl Default for AMTCounter {
    /// A counter with every count at zero.
    fn default() -> (r: Self)
        ensures
            r.counts() == (seq![0u64, 0u64, 0u64, 0u64], 0u64, 0u64, 0u64),
    {
        let r = AMTCounter { put_count: [0u64; 4], inc_key_count: 0, inc_tree_count: 0, inc_key_level_count: 0 };
        assert(r.put_count@ =~= seq![0u64, 0u64, 0u64, 0u64]);
        r
    }
}

} // verus!
