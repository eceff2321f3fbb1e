//! Bookkeeping of a key-value backend: the counters of reads and writes that
//! the statistics report, and the prefix test of key scans.

use crate::kv::DBTransaction;
use vstd::prelude::*;

verus! {

broadcast use vstd::std_specs::vec::group_vec_axioms;

/// The bytes that the insertions of a batch write.
pub open spec fn inserted_bytes(ops: Seq<(u32, Seq<u8>, Option<Seq<u8>>)>) -> nat
    decreases ops.len(),
{
    if ops.len() == 0 {
        0
    } else {
        inserted_bytes(ops.drop_last()) + match ops.last().2 {
            Some(v) => v.len(),
            None => 0,
        }
    }
}

/// The counters of a database with statistics: reads and writes, and the
/// bytes they moved. They wrap around as the atomic counters they stand for.
pub struct DatabaseWithMetrics {
    pub reads: i64,
    pub writes: i64,
    pub bytes_read: i64,
    pub bytes_written: i64,
}

impl DatabaseWithMetrics {
    /// All counters at zero.
    pub fn new() -> (r: Self)
        ensures
            r.reads == 0,
            r.writes == 0,
            r.bytes_read == 0,
            r.bytes_written == 0,
    {
        DatabaseWithMetrics { reads: 0, writes: 0, bytes_read: 0, bytes_written: 0 }
    }

    /// Counts one read that returned `len` bytes (zero when nothing was
    /// found).
    pub fn record_read(&mut self, len: usize)
        ensures
            final(self).reads == old(self).reads.wrapping_add(1),
            final(self).bytes_read == old(self).bytes_read.wrapping_add(len as i64),
            final(self).writes == old(self).writes,
            final(self).bytes_written == old(self).bytes_written,
    {
        self.reads = self.reads.wrapping_add(1);
        self.bytes_read = self.bytes_read.wrapping_add(#[verifier::truncate] (len as i64));
    }

    /// Counts the writes of a batch and the bytes its insertions write.
    pub fn record_write(&mut self, tx: &DBTransaction)
        requires
            inserted_bytes(tx.view()) <= usize::MAX,
        ensures
            final(self).writes == old(self).writes.wrapping_add(tx.ops@.len() as i64),
            final(self).bytes_written == old(self).bytes_written.wrapping_add(
                inserted_bytes(tx.view()) as i64,
            ),
            final(self).reads == old(self).reads,
            final(self).bytes_read == old(self).bytes_read,
    {
        let mut count: usize = 0;
        let mut i: usize = 0;
        proof {
            lemma_inserted_bytes_prefix(tx.view(), tx.view().len() as int);
            assert(tx.view().take(tx.view().len() as int) =~= tx.view());
        }
        while i < tx.ops.len()
            invariant
                i <= tx.ops@.len(),
                count == inserted_bytes(tx.view().take(i as int)),
                inserted_bytes(tx.view()) <= usize::MAX,
                forall|j: int| 0 <= j <= tx.view().len() ==> inserted_bytes(#[trigger] tx.view().take(j)) <= inserted_bytes(tx.view()),
            decreases tx.ops@.len() - i,
        {
            proof {
                assert(tx.view().take(i + 1).drop_last() =~= tx.view().take(i as int));
                assert(tx.view().take(i + 1).last() == tx.view()[i as int]);
            }
            let add = match &tx.ops[i] {
                crate::kv::DBOp::Insert { value, .. } => value.len(),
                crate::kv::DBOp::Delete { .. } => 0,
            };
            proof {
                assert(inserted_bytes(tx.view().take(i + 1)) <= inserted_bytes(tx.view()));
            }
            count = count + add;
            i = i + 1;
        }
        assert(tx.view().take(tx.ops@.len() as int) =~= tx.view());
        self.writes = self.writes.wrapping_add(#[verifier::truncate] (tx.ops.len() as i64));
        self.bytes_written = self.bytes_written.wrapping_add(#[verifier::truncate] (count as i64));
    }
}

/// The bytes inserted by a prefix of a batch are at most those of the whole.
pub proof fn lemma_inserted_bytes_prefix(ops: Seq<(u32, Seq<u8>, Option<Seq<u8>>)>, n: int)
    requires
        0 <= n <= ops.len(),
    ensures
        forall|j: int| 0 <= j <= n ==> inserted_bytes(#[trigger] ops.take(j)) <= inserted_bytes(ops.take(n)),
    decreases n,
{
    if n > 0 {
        lemma_inserted_bytes_prefix(ops, n - 1);
        assert(ops.take(n).drop_last() =~= ops.take(n - 1));
    }
}

/// `true` when `full` begins with `prefix`.
pub fn is_prefix(prefix: &[u8], full: &[u8]) -> (r: bool)
    ensures
        r == (prefix@.len() <= full@.len() && full@.take(prefix@.len() as int) == prefix@),
{
    if prefix.len() > full.len() {
        return false;
    }
    let mut i: usize = 0;
    while i < prefix.len()
        invariant
            i <= prefix@.len() <= full@.len(),
            forall|j: int| 0 <= j < i ==> prefix@[j] == full@[j],
        decreases prefix@.len() - i,
    {
        if prefix[i] != full[i] {
            assert(full@.take(prefix@.len() as int)[i as int] != prefix@[i as int]);
            return false;
        }
        i = i + 1;
    }
    assert(full@.take(prefix@.len() as int) =~= prefix@);
    true
}

} // verus!
