//! The workloads of the benchmark: batches of reads and writes, the keys of
//! the random workload, and the batching of a recorded trace.

use crate::options::{AuthAlgo, Options};
use crate::serde::{le_bytes, usize_bytes, write_le, lemma_usize_bytes, lemma_le_bytes_len, HashBytes};
use vstd::prelude::*;

verus! {

broadcast use vstd::std_specs::vec::group_vec_axioms;

/// One access of a workload.
pub enum Event {
    Read(Vec<u8>),
    Write(Vec<u8>, Vec<u8>),
}

/// A batch of accesses.
pub struct Events(pub Vec<Event>);

/// An access as plain values: the key, and the value written (`None` for a
/// read).
pub open spec fn event_view(e: Event) -> (Seq<u8>, Option<Seq<u8>>) {
    match e {
        Event::Read(k) => (k@, None),
        Event::Write(k, v) => (k@, Some(v@)),
    }
}

/// The accesses of a batch as plain values.
pub open spec fn events_view(es: Seq<Event>) -> Seq<(Seq<u8>, Option<Seq<u8>>)> {
    es.map_values(|e: Event| event_view(e))
}

/// The accesses of several batches, one batch after another.
pub open spec fn flatten_events(bs: Seq<Events>) -> Seq<(Seq<u8>, Option<Seq<u8>>)>
    decreases bs.len(),
{
    if bs.len() == 0 {
        Seq::empty()
    } else {
        flatten_events(bs.drop_last()) + events_view(bs.last().0@)
    }
}

/// The CRC-64 (ECMA) checksum of `data`.
pub uninterp spec fn crc64_ecma(data: Seq<u8>) -> u64;

/// The checksum that `crc64fast::Digest` computes for `data`: a new digest,
/// given `data` with `write`, read with `sum64`. The contract claims only that
/// the checksum is a function of the bytes.
#[verifier::external_body]
fn crc64(data: &[u8]) -> (r: u64)
    ensures
        r == crc64_ecma(data@),
{
    let mut digest = crc64fast::Digest::new();
    digest.write(data);
    digest.sum64()
}

/// The 32-byte key made from `data`: its checksum, as eight little-endian
/// bytes, four times over.
pub open spec fn key_hash(data: Seq<u8>) -> Seq<u8> {
    let c = le_bytes(crc64_ecma(data) as nat, 8);
    c + c + c + c
}

/// The 32-byte key made from `input` (see `key_hash`).
pub fn hash(input: &[u8]) -> (r: HashBytes)
    ensures
        r@ == key_hash(input@),
{
    let c = crc64(input);
    let mut v: Vec<u8> = Vec::new();
    write_le(&mut v, c, 8);
    write_le(&mut v, c, 8);
    write_le(&mut v, c, 8);
    write_le(&mut v, c, 8);
    proof {
        lemma_le_bytes_len(c as nat, 8);
        assert(v@ =~= key_hash(input@));
    }
    let mut a: [u8; 32] = [0u8; 32];
    let mut i: usize = 0;
    while i < 32
        invariant
            i <= 32,
            v@.len() == 32,
            forall|j: int| 0 <= j < i ==> a@[j] == v@[j],
        decreases 32 - i,
    {
        a[i] = v[i];
        i = i + 1;
    }
    assert(a@ =~= v@);
    a
}

/// The bytes of `n`, most significant first, as many as a `usize` has.
pub open spec fn usize_be(n: usize) -> Seq<u8> {
    le_bytes(n as nat, usize_bytes()).reverse()
}

/// The bytes of `n`, most significant first.
pub fn usize_to_be(n: usize) -> (r: Vec<u8>)
    ensures
        r@ == usize_be(n),
{
    proof {
        lemma_usize_bytes();
    }
    let mut le: Vec<u8> = Vec::new();
    let k: usize = if usize::BITS == 64 {
        8
    } else {
        4
    };
    assert(k == usize_bytes());
    write_le(&mut le, n as u64, k);
    assert(le@ =~= le_bytes(n as nat, k as nat));
    proof {
        lemma_le_bytes_len(n as nat, k as nat);
    }
    let mut r: Vec<u8> = Vec::new();
    let mut i: usize = k;
    while i > 0
        invariant
            i <= k,
            le@.len() == k,
            r@ == le@.subrange(i as int, k as int).reverse(),
        decreases i,
    {
        i = i - 1;
        r.push(le[i]);
        assert(r@ =~= le@.subrange(i as int, k as int).reverse());
    }
    assert(le@.subrange(0, k as int) =~= le@);
    r
}

/// The key of the `i`-th of the random workload's keys.
pub open spec fn task_key(i: usize) -> Seq<u8> {
    key_hash(usize_be(i))
}

/// The key of the `i`-th of the random workload's keys (see `task_key`).
pub fn key_of(i: usize) -> (r: Vec<u8>)
    ensures
        r@ == task_key(i),
{
    let b = usize_to_be(i);
    let h = hash(b.as_slice());
    h_to_vec(&h)
}

/// A copy of a hash as a vector.
fn h_to_vec(h: &HashBytes) -> (r: Vec<u8>)
    ensures
        r@ == h@,
{
    let mut r: Vec<u8> = Vec::new();
    let mut i: usize = 0;
    while i < 32
        invariant
            i <= 32,
            h@.len() == 32,
            r@ == h@.subrange(0, i as int),
        decreases 32 - i,
    {
        r.push(h[i]);
        i = i + 1;
    }
    assert(r@ =~= h@);
    r
}

/// A copy of a byte vector.
fn copy_vec(v: &Vec<u8>) -> (r: Vec<u8>)
    ensures
        r@ == v@,
{
    let mut r: Vec<u8> = Vec::new();
    let mut i: usize = 0;
    while i < v.len()
        invariant
            i <= v@.len(),
            r@ == v@.subrange(0, i as int),
        decreases v@.len() - i,
    {
        r.push(v[i]);
        i = i + 1;
    }
    assert(r@ =~= v@);
    r
}

/// The parameters of the random workload.
pub struct ReadThenWrite {
    pub total_keys: usize,
    pub batch_size: usize,
    pub seed: u64,
}

impl ReadThenWrite {
    /// The random workload of a run: its number of keys, one epoch per batch,
    /// and its seed.
    pub fn new(opts: &Options) -> (r: Self)
        ensures
            r.total_keys == opts.total_keys,
            r.batch_size == opts.epoch_size,
            r.seed == opts.seed,
    {
        ReadThenWrite { total_keys: opts.total_keys, batch_size: opts.epoch_size, seed: opts.seed }
    }
}

/// The accesses of a random batch: for each drawn key number and value, a
/// read of the key and then a write of the value.
pub open spec fn read_write_view(draws: Seq<(usize, HashBytes)>) -> Seq<(Seq<u8>, Option<Seq<u8>>)>
    decreases draws.len(),
{
    if draws.len() == 0 {
        Seq::empty()
    } else {
        let (i, v) = draws.last();
        read_write_view(draws.drop_last()).push((task_key(i), None)).push((task_key(i), Some(v@)))
    }
}

/// A random batch from the drawn key numbers and values (see
/// `read_write_view`).
pub fn read_write_events(draws: &[(usize, HashBytes)]) -> (r: Events)
    ensures
        events_view(r.0@) == read_write_view(draws@),
{
    let mut out: Vec<Event> = Vec::new();
    let mut j: usize = 0;
    while j < draws.len()
        invariant
            j <= draws@.len(),
            events_view(out@) == read_write_view(draws@.take(j as int)),
        decreases draws@.len() - j,
    {
        let (i, v) = draws[j];
        let k = key_of(i);
        let k2 = copy_vec(&k);
        out.push(Event::Read(k));
        out.push(Event::Write(k2, h_to_vec(&v)));
        assert(draws@.take(j + 1).drop_last() =~= draws@.take(j as int));
        assert(events_view(out@) =~= read_write_view(draws@.take(j + 1)));
        j = j + 1;
    }
    assert(draws@.take(draws@.len() as int) =~= draws@);
    Events(out)
}

/// The writes of a warmup batch: each key number's key with its value.
pub open spec fn writes_view(keys: Seq<usize>, values: Seq<HashBytes>) -> Seq<(Seq<u8>, Option<Seq<u8>>)> {
    Seq::new(keys.len(), |i: int| (task_key(keys[i]), Some(values[i]@)))
}

/// The warmup batches of a whole run over the key numbers `keys`, `b` at a
/// time: each batch takes up to `b` numbers from the end, the last first.
pub open spec fn warmup_run(keys: Seq<usize>, b: nat) -> Seq<Seq<usize>>
    decreases keys.len(),
{
    if keys.len() == 0 || b == 0 {
        Seq::empty()
    } else {
        let n: int = if b <= keys.len() {
            b as int
        } else {
            keys.len() as int
        };
        seq![keys.skip(keys.len() - n).reverse()] + warmup_run(keys.take(keys.len() - n), b)
    }
}

/// The batches of a whole warmup run, joined.
pub open spec fn joined(bs: Seq<Seq<usize>>) -> Seq<usize>
    decreases bs.len(),
{
    if bs.len() == 0 {
        Seq::empty()
    } else {
        bs[0] + joined(bs.drop_first())
    }
}

/// A whole warmup run over `k` key numbers, `b` at a time (`b` at least 1),
/// takes `ceil(k / b)` batches; every batch but the last holds `b` numbers;
/// and together they hold every number exactly once, from the last to the
/// first.
pub proof fn lemma_warmup_run(keys: Seq<usize>, b: nat)
    requires
        b >= 1,
    ensures
        warmup_run(keys, b).len() == (keys.len() + b - 1) / (b as int),
        forall|j: int| 0 <= j < warmup_run(keys, b).len() - 1 ==> (#[trigger] warmup_run(keys, b)[j]).len() == b,
        warmup_run(keys, b).len() > 0 ==> warmup_run(keys, b).last().len() == keys.len() - b * (
        warmup_run(keys, b).len() - 1),
        joined(warmup_run(keys, b)) == keys.reverse(),
    decreases keys.len(),
{
    let r = warmup_run(keys, b);
    if keys.len() == 0 {
        assert((keys.len() + b - 1) / (b as int) == 0) by (nonlinear_arith)
            requires keys.len() == 0, b >= 1;
        assert(keys.reverse() =~= Seq::<usize>::empty());
    } else {
        let n: int = if b <= keys.len() {
            b as int
        } else {
            keys.len() as int
        };
        let rest = keys.take(keys.len() - n);
        lemma_warmup_run(rest, b);
        let rr = warmup_run(rest, b);
        assert(r == seq![keys.skip(keys.len() - n).reverse()] + rr);
        assert(r.drop_first() =~= rr);
        if b <= keys.len() {
            assert((keys.len() + b - 1) / (b as int) == (rest.len() + b - 1) / (b as int) + 1) by (nonlinear_arith)
                requires rest.len() == keys.len() - b, b >= 1, b <= keys.len();
        } else {
            assert(rest.len() == 0);
            assert((keys.len() + b - 1) / (b as int) == 1) by (nonlinear_arith)
                requires keys.len() < b, keys.len() >= 1;
        }
        assert forall|j: int| 0 <= j < r.len() - 1 implies (#[trigger] r[j]).len() == b by {
            if j > 0 {
                assert(r[j] == rr[j - 1]);
            } else {
                assert(rr.len() > 0);
                assert(rest.len() > 0);
            }
        }
        if rr.len() > 0 {
            assert(r.last() == rr.last());
            assert(b <= keys.len()) by {
                if b > keys.len() {
                    assert(rest.len() == 0);
                }
            }
            let m = rr.len() as int;
            assert(b * m == b * (m - 1) + b) by (nonlinear_arith);
        } else {
            assert(rest.len() == 0) by {
                if rest.len() > 0 {
                    assert((rest.len() + b - 1) / (b as int) >= 1) by (nonlinear_arith)
                        requires rest.len() >= 1, b >= 1;
                }
            }
            assert(r.last() == r[0]);
        }
        assert(keys.reverse() =~= keys.skip(keys.len() - n).reverse() + rest.reverse());
    }
}

/// Takes the next warmup batch: up to `batch_size` key numbers from the end
/// of `keys`, the last first.
pub fn take_warmup_keys(keys: &mut Vec<usize>, batch_size: usize) -> (r: Vec<usize>)
    ensures
        r@.len() == if batch_size <= old(keys)@.len() {
            batch_size as nat
        } else {
            old(keys)@.len()
        },
        final(keys)@ == old(keys)@.take(old(keys)@.len() - r@.len()),
        r@ == old(keys)@.skip(old(keys)@.len() - r@.len()).reverse(),
        batch_size > 0 && old(keys)@.len() > 0 ==> warmup_run(old(keys)@, batch_size as nat) == seq![r@] + warmup_run(
            final(keys)@,
            batch_size as nat,
        ),
{
    let mut r: Vec<usize> = Vec::new();
    let mut n: usize = 0;
    let ghost start = keys@;
    while n < batch_size
        invariant_except_break
            n <= batch_size,
            n == r@.len(),
            n <= start.len(),
            keys@ == start.take(start.len() - n),
            r@ == start.skip(start.len() - n).reverse(),
        ensures
            n <= batch_size,
            n == r@.len(),
            n <= start.len(),
            n == batch_size || n == start.len(),
            keys@ == start.take(start.len() - n),
            r@ == start.skip(start.len() - n).reverse(),
        decreases batch_size - n,
    {
        match keys.pop() {
            Some(v) => {
                r.push(v);
                n = n + 1;
                assert(keys@ =~= start.take(start.len() - n));
                assert(r@ =~= start.skip(start.len() - n).reverse());
            },
            None => {
                break;
            },
        }
    }
    r
}

/// The writes of a warmup batch (see `writes_view`), or nothing when there
/// are no keys left.
pub fn warmup_events(keys: &[usize], values: &[HashBytes]) -> (r: Option<Events>)
    requires
        keys@.len() == values@.len(),
    ensures
        match r {
            None => keys@.len() == 0,
            Some(es) => keys@.len() > 0 && events_view(es.0@) == writes_view(keys@, values@),
        },
{
    if keys.len() == 0 {
        return None;
    }
    let mut out: Vec<Event> = Vec::new();
    let mut j: usize = 0;
    while j < keys.len()
        invariant
            j <= keys@.len(),
            keys@.len() == values@.len(),
            events_view(out@) == writes_view(keys@.take(j as int), values@.take(j as int)),
        decreases keys@.len() - j,
    {
        let k = key_of(keys[j]);
        let v = h_to_vec(&values[j]);
        let ghost before = out@;
        let ghost e = Event::Write(k, v);
        out.push(Event::Write(k, v));
        proof {
            assert(out@ == before.push(e));
            assert(events_view(out@) =~= events_view(before).push(event_view(e)));
            assert(event_view(e) == (task_key(keys@[j as int]), Some(values@[j as int]@)));
            assert(events_view(out@) =~= writes_view(keys@.take(j + 1), values@.take(j + 1)));
        }
        j = j + 1;
    }
    assert(keys@.take(keys@.len() as int) =~= keys@);
    assert(values@.take(values@.len() as int) =~= values@);
    Some(Events(out))
}

/// A workload that yields nothing.
pub struct NoopIter;

impl NoopIter {
    /// The next batch: there is none.
    pub fn next(&mut self) -> (r: Option<Events>)
        ensures
            r is None,
    {
        None
    }
}

/// Hands out the batches of a recorded trace, one block at a time, from the
/// groups of blocks that arrive.
pub struct TaskProducer {
    group_size: usize,
    events: Vec<Events>,
}

impl TaskProducer {
    /// The blocks received and not yet handed out; the next one is the last.
    pub closed spec fn pending(&self) -> Seq<Events> {
        self.events@
    }

    /// How many blocks are merged into one batch.
    pub closed spec fn spec_group_size(&self) -> usize {
        self.group_size
    }

    /// A producer with nothing received yet.
    pub fn new(group_size: usize) -> (r: Self)
        ensures
            r.pending().len() == 0,
            r.spec_group_size() == group_size,
    {
        TaskProducer { group_size, events: Vec::new() }
    }

    /// How many blocks are merged into one batch.
    pub fn group_size(&self) -> (r: usize)
        ensures
            r == self.spec_group_size(),
    {
        self.group_size
    }

    /// `true` when the producer has handed out every block it received, and
    /// the next group must be received before `pick_next`.
    pub fn needs_group(&self) -> (r: bool)
        ensures
            r == (self.pending().len() == 0),
    {
        self.events.len() == 0
    }

    /// The next block. When none is pending, `received` is the next group of
    /// blocks (`None` once the trace is over, and then nothing is returned);
    /// otherwise it is not used.
    pub fn pick_next(&mut self, received: Option<Vec<Events>>) -> (r: Option<Events>)
        requires
            old(self).pending().len() == 0 ==> (received matches Some(g) ==> g@.len() > 0),
        ensures
            final(self).spec_group_size() == old(self).spec_group_size(),
            old(self).pending().len() > 0 ==> (r == Some(old(self).pending().last())
                && final(self).pending() == old(self).pending().drop_last()),
            old(self).pending().len() == 0 ==> match received {
                None => r is None && final(self).pending().len() == 0,
                Some(g) => r == Some(g@.last()) && final(self).pending() == g@.drop_last(),
            },
    {
        if self.events.len() == 0 {
            match received {
                None => {
                    return None;
                },
                Some(g) => {
                    self.events = g;
                },
            }
        }
        self.events.pop()
    }
}

/// Merges picked blocks into one batch, or nothing when they hold no
/// accesses.
pub fn group_events(picked: Vec<Events>) -> (r: Option<Events>)
    ensures
        match r {
            None => flatten_events(picked@).len() == 0,
            Some(es) => flatten_events(picked@).len() > 0 && events_view(es.0@) == flatten_events(picked@),
        },
{
    let ghost all = picked@;
    assert(all.len() == picked.len());
    let mut out: Vec<Event> = Vec::new();
    let mut rest = picked;
    let mut k: usize = 0;
    while rest.len() > 0
        invariant
            k <= all.len(),
            all.len() <= usize::MAX,
            k + rest@.len() == all.len(),
            rest@ == all.skip(k as int),
            events_view(out@) == flatten_events(all.take(k as int)),
        decreases rest@.len(),
    {
        let mut b = rest.remove(0);
        let ghost before = out@;
        let ghost bv = b.0@;
        out.append(&mut b.0);
        proof {
            assert(all.take(k + 1).drop_last() =~= all.take(k as int));
            assert(all.take(k + 1).last() == all[k as int]);
            assert(all[k as int].0@ == bv);
            assert(events_view(out@) =~= events_view(before) + events_view(bv));
            assert(rest@ =~= all.skip(k + 1));
        }
        k = k + 1;
    }
    assert(all.take(k as int) =~= all);
    if out.len() == 0 {
        None
    } else {
        Some(Events(out))
    }
}

/// The accesses of a recorded trace's initial writes, in batches of a
/// thousand: batch `i` writes the keys and values `init[1000 * i ..]`, up to a
/// thousand of them.
pub open spec fn warmup_view(init: Seq<(HashBytes, Vec<u8>)>, i: int) -> Seq<(Seq<u8>, Option<Seq<u8>>)> {
    let from = 1000 * i;
    let to = if from + 1000 <= init.len() {
        from + 1000
    } else {
        init.len() as int
    };
    Seq::new((to - from) as nat, |j: int| (init[from + j].0@, Some(init[from + j].1@)))
}

/// The writes of every initial pair, in order.
pub open spec fn init_writes(init: Seq<(HashBytes, Vec<u8>)>) -> Seq<(Seq<u8>, Option<Seq<u8>>)> {
    Seq::new(init.len(), |j: int| (init[j].0@, Some(init[j].1@)))
}

/// A recorded trace: where its files are, its initial writes, and how many
/// blocks make a batch.
pub struct RealTrace {
    pub path: String,
    pub init_tasks: Option<Vec<(HashBytes, Vec<u8>)>>,
    pub group_size: usize,
}

impl RealTrace {
    /// The trace of a run, with the initial writes that were loaded, if any.
    /// The tries hash every node they change, so their batches merge fifty
    /// blocks; the others take one block at a time.
    pub fn new(opt: &Options, init_tasks: Option<Vec<(HashBytes, Vec<u8>)>>) -> (r: Self)
        ensures
            r.path@ == opt.trace_dir@,
            r.init_tasks == init_tasks,
            r.group_size == (if opt.algorithm == AuthAlgo::RAIN || opt.algorithm == AuthAlgo::MPT {
                50usize
            } else {
                1usize
            }),
    {
        let group_size: usize = match opt.algorithm {
            AuthAlgo::RAIN | AuthAlgo::MPT => 50,
            _ => 1,
        };
        RealTrace { path: opt.trace_dir.clone(), init_tasks, group_size }
    }

    /// The initial writes in batches of a thousand (see `warmup_view`).
    pub fn warmup(&self) -> (r: Vec<Events>)
        requires
            self.init_tasks is Some,
        ensures
            r@.len() == (self.init_tasks->0@.len() + 999) / 1000,
            forall|i: int| 0 <= i < r@.len() ==> events_view(#[trigger] r@[i].0@) == warmup_view(self.init_tasks->0@, i),
            flatten_events(r@) == init_writes(self.init_tasks->0@),
    {
        let init = match &self.init_tasks {
            Some(t) => t,
            None => {
                return Vec::new();
            },
        };
        let n = init.len();
        let mut out: Vec<Events> = Vec::new();
        let mut from: usize = 0;
        while from < n
            invariant
                n == init@.len(),
                from <= n,
                from == 1000 * out@.len() || from == n,
                out@.len() == (from + 999) / 1000,
                forall|i: int| 0 <= i < out@.len() ==> events_view(#[trigger] out@[i].0@) == warmup_view(init@, i),
                flatten_events(out@) == init_writes(init@).take(from as int),
            decreases n - from,
        {
            let to = if n - from >= 1000 {
                from + 1000
            } else {
                n
            };
            let mut batch: Vec<Event> = Vec::new();
            let mut j = from;
            while j < to
                invariant
                    from <= j <= to <= n,
                    n == init@.len(),
                    events_view(batch@) == Seq::new((j - from) as nat, |t: int| (init@[from + t].0@, Some(init@[from + t].1@))),
                decreases to - j,
            {
                let (k, v) = &init[j];
                let kv = h_to_vec(k);
                let vv = copy_vec(v);
                let ghost before = batch@;
                let ghost e = Event::Write(kv, vv);
                batch.push(Event::Write(kv, vv));
                proof {
                    assert(batch@ == before.push(e));
                    assert(events_view(batch@) =~= events_view(before).push(event_view(e)));
                    assert(event_view(e) == (init@[j as int].0@, Some(init@[j as int].1@)));
                    assert(events_view(batch@) =~= Seq::new((j + 1 - from) as nat, |t: int| (init@[from + t].0@, Some(init@[from + t].1@))));
                }
                j = j + 1;
            }
            let ghost idx = out@.len() as int;
            proof {
                assert(from == 1000 * idx);
                if to == from + 1000 {
                    assert((to + 999) / 1000 == (from + 999) / 1000 + 1) by (nonlinear_arith)
                        requires to == from + 1000;
                } else {
                    assert((to + 999) / 1000 == idx + 1) by (nonlinear_arith)
                        requires from == 1000 * idx, from < to, to < from + 1000;
                }
            }
            let ghost before = out@;
            out.push(Events(batch));
            proof {
                assert(events_view(out@[idx].0@) =~= warmup_view(init@, idx));
                assert(out@.drop_last() =~= before);
                assert(init_writes(init@).take(to as int) =~= init_writes(init@).take(from as int) + events_view(
                    out@.last().0@,
                ));
            }
            from = to;
        }
        assert(init_writes(init@).take(n as int) =~= init_writes(init@));
        out
    }
}

} // verus!
