//! Batches of writes to a key-value store with numbered columns: the
//! library's own form of the batches that the storage backends apply.

use vstd::prelude::*;

verus! {

/// One write in a batch.
pub enum DBOp {
    /// Stores `value` under `key` in column `col`.
    Insert { col: u32, key: Vec<u8>, value: Vec<u8> },
    /// Removes `key` from column `col`.
    Delete { col: u32, key: Vec<u8> },
}

/// A write as plain values: the column, the key, and the value stored (`None`
/// for a removal).
pub open spec fn op_view(op: DBOp) -> (u32, Seq<u8>, Option<Seq<u8>>) {
    match op {
        DBOp::Insert { col, key, value } => (col, key@, Some(value@)),
        DBOp::Delete { col, key } => (col, key@, None),
    }
}

/// A batch of writes, applied in order.
pub struct DBTransaction {
    pub ops: Vec<DBOp>,
}

impl DBTransaction {
    /// The writes of the batch as plain values.
    pub open spec fn view(self) -> Seq<(u32, Seq<u8>, Option<Seq<u8>>)> {
        self.ops@.map_values(|op: DBOp| op_view(op))
    }

    /// An empty batch.
    pub fn new() -> (r: Self)
        ensures
            r.view() == Seq::<(u32, Seq<u8>, Option<Seq<u8>>)>::empty(),
    {
        let r = DBTransaction { ops: Vec::new() };
        assert(r.view() =~= Seq::<(u32, Seq<u8>, Option<Seq<u8>>)>::empty());
        r
    }

    /// Adds the storing of `value` under `key` in column `col`.
    pub fn put_vec(&mut self, col: u32, key: &[u8], value: Vec<u8>)
        ensures
            final(self).view() == old(self).view().push((col, key@, Some(value@))),
    {
        let k = copy_bytes(key);
        self.ops.push(DBOp::Insert { col, key: k, value });
        assert(self.view() =~= old(self).view().push((col, key@, Some(value@))));
    }

    /// Adds the storing of a copy of `value` under `key` in column `col`.
    pub fn put(&mut self, col: u32, key: &[u8], value: &[u8])
        ensures
            final(self).view() == old(self).view().push((col, key@, Some(value@))),
    {
        let v = copy_bytes(value);
        self.put_vec(col, key, v);
    }

    /// Adds the removal of `key` from column `col`.
    pub fn delete(&mut self, col: u32, key: &[u8])
        ensures
            final(self).view() == old(self).view().push((col, key@, None)),
    {
        let k = copy_bytes(key);
        self.ops.push(DBOp::Delete { col, key: k });
        assert(self.view() =~= old(self).view().push((col, key@, None)));
    }
}

/// A copy of `b`.
pub fn copy_bytes(b: &[u8]) -> (r: Vec<u8>)
    ensures
        r@ == b@,
{
    let mut r: Vec<u8> = Vec::with_capacity(b.len());
    let mut i: usize = 0;
    while i < b.len()
        invariant
            i <= b@.len(),
            r@ == b@.subrange(0, i as int),
        decreases b@.len() - i,
    {
        r.push(b[i]);
        i = i + 1;
    }
    r
}

/// The contents of column `col` after the writes `ops` are applied to a
/// store whose column holds `db`.
pub open spec fn apply_ops(db: Map<Seq<u8>, Seq<u8>>, col: u32, ops: Seq<(u32, Seq<u8>, Option<Seq<u8>>)>) -> Map<Seq<u8>, Seq<u8>>
    decreases ops.len(),
{
    if ops.len() == 0 {
        db
    } else {
        let before = apply_ops(db, col, ops.drop_last());
        let (c, k, v) = ops.last();
        if c != col {
            before
        } else {
            match v {
                Some(v) => before.insert(k, v),
                None => before.remove(k),
            }
        }
    }
}

} // verus!
