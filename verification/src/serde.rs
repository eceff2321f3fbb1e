//! A byte-level serialisation format: little-endian integers, length-prefixed
//! byte strings and vectors, fixed 32-byte hashes.

use vstd::prelude::*;

verus! {

/// Selects the encoding of curve points: `consistent` asks for the canonical
/// form shared by all nodes, otherwise a local, faster form is used.
#[derive(Copy, Clone, Debug, PartialEq, Eq, Structural)]
pub struct SerdeType {
    pub consistent: bool,
}

/// Why a value could not be read.
#[derive(Copy, Clone, Debug, PartialEq, Eq, Structural)]
pub enum SerdeError {
    /// The input ended before the value did.
    UnexpectedEof,
}

/// `256^n`.
pub open spec fn pow256(n: nat) -> nat
    decreases n,
{
    if n == 0 {
        1
    } else {
        256 * pow256((n - 1) as nat)
    }
}

/// The `n` low bytes of `x`, least significant first.
pub open spec fn le_bytes(x: nat, n: nat) -> Seq<u8>
    decreases n,
{
    if n == 0 {
        Seq::empty()
    } else {
        seq![(x % 256) as u8] + le_bytes(x / 256, (n - 1) as nat)
    }
}

/// Byte `i` of the `n` little-endian bytes of `x` is the `i`-th base-256
/// digit of `x`, the least significant first.
pub proof fn lemma_le_bytes_digit(x: nat, n: nat, i: int)
    requires
        0 <= i < n,
    ensures
        le_bytes(x, n)[i] == (x / pow256(i as nat)) % 256,
    decreases n,
{
    lemma_le_bytes_len(x / 256, (n - 1) as nat);
    if i == 0 {
        assert(pow256(0) == 1);
        assert(le_bytes(x, n)[0] == (x % 256) as u8);
        assert(x / 1 == x);
    }
    if i > 0 {
        lemma_le_bytes_digit(x / 256, (n - 1) as nat, i - 1);
        assert(le_bytes(x, n)[i] == le_bytes(x / 256, (n - 1) as nat)[i - 1]);
        assert(pow256(i as nat) == 256 * pow256((i - 1) as nat));
        assert(pow256((i - 1) as nat) > 0) by {
            lemma_pow256_positive((i - 1) as nat);
        }
        vstd::arithmetic::div_mod::lemma_div_denominator(x as int, 256, pow256((i - 1) as nat) as int);
        assert(x / 256 / pow256((i - 1) as nat) == x / (256 * pow256((i - 1) as nat)));
        assert(le_bytes(x / 256, (n - 1) as nat)[i - 1] == ((x / 256) / pow256((i - 1) as nat)) % 256);
    }
}

/// `256^n` is positive.
proof fn lemma_pow256_positive(n: nat)
    ensures
        pow256(n) > 0,
    decreases n,
{
    if n > 0 {
        lemma_pow256_positive((n - 1) as nat);
    }
}

/// The number whose little-endian bytes are `b`.
pub open spec fn le_value(b: Seq<u8>) -> nat
    decreases b.len(),
{
    if b.len() == 0 {
        0
    } else {
        (b[0] + 256 * le_value(b.drop_first())) as nat
    }
}

/// The number of bytes of a `usize`.
pub open spec fn usize_bytes() -> nat {
    (usize::BITS / 8) as nat
}

pub proof fn lemma_le_bytes_len(x: nat, n: nat)
    ensures
        le_bytes(x, n).len() == n,
    decreases n,
{
    if n > 0 {
        lemma_le_bytes_len(x / 256, (n - 1) as nat);
    }
}

/// Reading back the `n` low bytes of `x` gives `x` when it is below `256^n`.
pub proof fn lemma_le_roundtrip(x: nat, n: nat)
    requires
        x < pow256(n),
    ensures
        le_value(le_bytes(x, n)) == x,
    decreases n,
{
    lemma_le_bytes_len(x, n);
    if n > 0 {
        assert(x / 256 < pow256((n - 1) as nat)) by {
            vstd::arithmetic::div_mod::lemma_multiply_divide_lt(x as int, 256, pow256((n - 1) as nat) as int);
        }
        lemma_le_roundtrip(x / 256, (n - 1) as nat);
        assert(le_bytes(x, n).drop_first() =~= le_bytes(x / 256, (n - 1) as nat));
    }
}

/// The value of `n` bytes is below `256^n`.
pub proof fn lemma_le_value_bound(b: Seq<u8>)
    ensures
        le_value(b) < pow256(b.len()),
    decreases b.len(),
{
    if b.len() > 0 {
        lemma_le_value_bound(b.drop_first());
    }
}

pub proof fn lemma_pow256_values()
    ensures
        pow256(1) == 0x100,
        pow256(2) == 0x10000,
        pow256(4) == 0x1_0000_0000,
        pow256(8) == 0x1_0000_0000_0000_0000,
{
    reveal_with_fuel(pow256, 9);
}

pub proof fn lemma_usize_bytes()
    ensures
        usize_bytes() == 4 || usize_bytes() == 8,
        pow256(usize_bytes()) == usize::MAX + 1,
        usize_bytes() <= 8,
{
    lemma_pow256_values();
    assert(usize::BITS == 32 || usize::BITS == 64);
    if usize::BITS == 32 {
        assert(usize::MAX == 0xffff_ffff);
    } else {
        assert(usize::MAX == 0xffff_ffff_ffff_ffff);
    }
}

/// Appends the `n` low bytes of `x`, least significant first.
pub fn write_le(out: &mut Vec<u8>, x: u64, n: usize)
    requires
        n <= 8,
    ensures
        final(out)@ == old(out)@ + le_bytes(x as nat, n as nat),
{
    let mut v = x;
    let mut i: usize = 0;
    let ghost start = old(out)@;
    while i < n
        invariant
            i <= n,
            le_bytes(x as nat, n as nat) == out@.subrange(start.len() as int, out@.len() as int)
                + le_bytes(v as nat, (n - i) as nat),
            start == out@.subrange(0, start.len() as int),
            start.len() <= out@.len(),
        decreases n - i,
    {
        let ghost before = out@;
        out.push((v % 256) as u8);
        proof {
            assert(le_bytes(v as nat, (n - i) as nat) =~= seq![(v % 256) as u8] + le_bytes(
                (v / 256) as nat,
                (n - i - 1) as nat,
            ));
            assert(out@.subrange(start.len() as int, out@.len() as int) =~= before.subrange(
                start.len() as int,
                before.len() as int,
            ).push((v % 256) as u8));
            assert(start =~= out@.subrange(0, start.len() as int));
        }
        v = v / 256;
        i = i + 1;
    }
    assert(le_bytes(v as nat, 0) =~= Seq::<u8>::empty());
    assert(out@ =~= start + le_bytes(x as nat, n as nat));
}

/// Reads `n` bytes at `pos` as a little-endian number.
fn read_le(data: &[u8], pos: usize, n: usize) -> (r: Result<(u64, usize), SerdeError>)
    requires
        n <= 8,
        pos <= data@.len(),
    ensures
        match r {
            Ok((v, end)) => end == pos + n && end <= data@.len() && v as nat == le_value(
                data@.subrange(pos as int, pos + n),
            ),
            Err(_) => pos + n > data@.len(),
        },
{
    if n > data.len() - pos {
        return Err(SerdeError::UnexpectedEof);
    }
    let ghost b = data@.subrange(pos as int, pos + n);
    let mut acc: u64 = 0;
    let mut i: usize = n;
    let len = data.len();
    proof {
        lemma_pow256_values();
    }
    while i > 0
        invariant
            i <= n <= 8,
            pos + n <= data@.len(),
            len == data@.len(),
            b == data@.subrange(pos as int, pos + n),
            acc as nat == le_value(b.skip(i as int)),
            acc < pow256((n - i) as nat),
            pow256(8) == 0x1_0000_0000_0000_0000,
        decreases i,
    {
        i = i - 1;
        proof {
            assert(b.skip(i as int).drop_first() =~= b.skip(i + 1));
            lemma_pow256_mono((n - i) as nat, 8);
            assert(pow256((n - i) as nat) == 256 * pow256((n - i - 1) as nat));
            assert(acc * 256 + 255 < pow256((n - i) as nat));
        }
        let byte = data[pos + i] as u64;
        let shifted = acc * 256;
        acc = shifted + byte;
    }
    assert(b.skip(0) =~= b);
    Ok((acc, pos + n))
}

pub proof fn lemma_pow256_mono(a: nat, b: nat)
    requires
        a <= b,
    ensures
        pow256(a) <= pow256(b),
    decreases b,
{
    if a < b {
        lemma_pow256_mono(a, (b - 1) as nat);
    }
}

/// A type that can be read from bytes.
pub trait MyFromBytes: Sized + View {
    /// The value (as a view) that the bytes at the front of `data` encode, with
    /// the number of bytes it takes; `None` when `data` does not hold one.
    spec fn spec_read(data: Seq<u8>, ty: SerdeType) -> Option<(Self::V, nat)>;

    /// Reads a value from `data` starting at `pos`; returns it with the
    /// position just after it.
    fn read(data: &[u8], pos: usize, ty: SerdeType) -> (r: Result<(Self, usize), SerdeError>)
        requires
            pos <= data@.len(),
        ensures
            match r {
                Ok((v, end)) => pos <= end <= data@.len() && Self::spec_read(
                    data@.skip(pos as int),
                    ty,
                ) == Some((v@, (end - pos) as nat)),
                Err(_) => Self::spec_read(data@.skip(pos as int), ty) is None,
            },
    ;

    /// Reads a value from the front of `data`.
    fn from_bytes(data: &[u8], ty: SerdeType) -> (r: Result<Self, SerdeError>)
        ensures
            match r {
                Ok(v) => Self::spec_read(data@, ty) is Some && Self::spec_read(data@, ty).unwrap().0 == v@,
                Err(_) => Self::spec_read(data@, ty) is None,
            },
    {
        assert(data@.skip(0) =~= data@);
        match <Self as MyFromBytes>::read(data, 0, ty) {
            Ok((v, end)) => {
                assert(Self::spec_read(data@, ty) == Some((v@, end as nat)));
                Ok(v)
            },
            Err(e) => Err(e),
        }
    }

    /// Reads a value in the local form.
    fn from_bytes_local(data: &[u8]) -> (r: Result<Self, SerdeError>)
        ensures
            match r {
                Ok(v) => Self::spec_read(data@, SerdeType { consistent: false }) is Some && Self::spec_read(
                    data@,
                    SerdeType { consistent: false },
                ).unwrap().0 == v@,
                Err(_) => Self::spec_read(data@, SerdeType { consistent: false }) is None,
            },
    {
        <Self as MyFromBytes>::from_bytes(data, SerdeType { consistent: false })
    }

    /// Reads a value in the consensus form.
    fn from_bytes_consensus(data: &[u8]) -> (r: Result<Self, SerdeError>)
        ensures
            match r {
                Ok(v) => Self::spec_read(data@, SerdeType { consistent: true }) is Some && Self::spec_read(
                    data@,
                    SerdeType { consistent: true },
                ).unwrap().0 == v@,
                Err(_) => Self::spec_read(data@, SerdeType { consistent: true }) is None,
            },
    {
        <Self as MyFromBytes>::from_bytes(data, SerdeType { consistent: true })
    }
}

/// Reads a length (a `usize`) followed by that many values.
pub fn read_vec<T: MyFromBytes>(data: &[u8], pos: usize, ty: SerdeType) -> (r: Result<(Vec<T>, usize), SerdeError>)
    requires
        pos <= data@.len(),
    ensures
        match r {
            Ok((v, end)) => pos <= end <= data@.len() && spec_read_vec::<T>(
                data@.skip(pos as int),
                ty,
            ) == Some((views(v@), (end - pos) as nat)),
            Err(_) => spec_read_vec::<T>(data@.skip(pos as int), ty) is None,
        },
{
    let (length, start) = match read_usize(data, pos) {
        Ok(x) => x,
        Err(e) => return Err(e),
    };
    let ghost d = data@.skip(pos as int);
    let ghost body = d.skip(start - pos);
    assert(body =~= data@.skip(start as int));
    assert(d.skip(start - pos) == body);
    let mut answer: Vec<T> = Vec::new();
    let mut cur = start;
    let mut i: usize = 0;
    while i < length
        invariant
            pos <= start <= cur <= data@.len(),
            i <= length,
            d == data@.skip(pos as int),
            body == data@.skip(start as int),
            d.skip(start - pos) == body,
            spec_read_usize(d) == Some((length, (start - pos) as nat)),
            spec_read_many::<T>(body, ty, i as nat) == Some((views(answer@), (cur - start) as nat)),
        decreases length - i,
    {
        let (item, next) = match <T as MyFromBytes>::read(data, cur, ty) {
            Ok(x) => x,
            Err(e) => {
                proof {
                    assert(body.skip(cur - start) =~= data@.skip(cur as int));
                    lemma_read_many_fails_after::<T>(body, ty, i as nat, length as nat);
                    assert(spec_read_many::<T>(body, ty, length as nat) is None);
                }
                return Err(e);
            },
        };
        proof {
            assert(body.skip(cur - start) =~= data@.skip(cur as int));
        }
        let ghost before = answer@;
        answer.push(item);
        assert(views(answer@) =~= views(before).push(item@));
        cur = next;
        i = i + 1;
    }
    Ok((answer, cur))
}

/// The views of a sequence of values.
pub open spec fn views<T: View>(s: Seq<T>) -> Seq<T::V> {
    s.map_values(|x: T| x@)
}

/// Reading `n` values one after another from the front of `data`: the values
/// and the number of bytes they take.
pub open spec fn spec_read_many<T: MyFromBytes>(data: Seq<u8>, ty: SerdeType, n: nat) -> Option<(Seq<T::V>, nat)>
    decreases n,
{
    if n == 0 {
        Some((Seq::empty(), 0))
    } else {
        match spec_read_many::<T>(data, ty, (n - 1) as nat) {
            None => None,
            Some((items, used)) => match T::spec_read(data.skip(used as int), ty) {
                None => None,
                Some((x, k)) => Some((items.push(x), used + k)),
            },
        }
    }
}

/// Reading a length-prefixed vector of values from the front of `data`.
pub open spec fn spec_read_vec<T: MyFromBytes>(data: Seq<u8>, ty: SerdeType) -> Option<(Seq<T::V>, nat)> {
    match spec_read_usize(data) {
        None => None,
        Some((len, k)) => match spec_read_many::<T>(data.skip(k as int), ty, len as nat) {
            None => None,
            Some((items, used)) => Some((items, k + used)),
        },
    }
}

pub proof fn lemma_read_many_fails_after<T: MyFromBytes>(data: Seq<u8>, ty: SerdeType, i: nat, n: nat)
    requires
        i < n,
        spec_read_many::<T>(data, ty, i) is Some,
        T::spec_read(data.skip(spec_read_many::<T>(data, ty, i).unwrap().1 as int), ty) is None,
    ensures
        spec_read_many::<T>(data, ty, n) is None,
    decreases n - i,
{
    if i + 1 < n {
        lemma_read_many_none_grows::<T>(data, ty, i + 1, n);
    }
}

proof fn lemma_read_many_none_grows<T: MyFromBytes>(data: Seq<u8>, ty: SerdeType, i: nat, n: nat)
    requires
        i <= n,
        spec_read_many::<T>(data, ty, i) is None,
    ensures
        spec_read_many::<T>(data, ty, n) is None,
    decreases n - i,
{
    if i < n {
        lemma_read_many_none_grows::<T>(data, ty, i, (n - 1) as nat);
    }
}

impl MyFromBytes for u8 {
    open spec fn spec_read(data: Seq<u8>, ty: SerdeType) -> Option<(Self::V, nat)> {
        if data.len() >= 1nat {
            Some((le_value(data.take(1nat as int)) as u8, 1nat))
        } else {
            None
        }
    }

    fn read(data: &[u8], pos: usize, ty: SerdeType) -> (r: Result<(Self, usize), SerdeError>) {
        proof {
            lemma_usize_bytes();
            lemma_pow256_values();
        }
        let n: usize = 1;
        match read_le(data, pos, n) {
            Ok((v, end)) => {
                proof {
                    assert(data@.subrange(pos as int, pos + n) =~= data@.skip(pos as int).take(n as int));
                    lemma_le_value_bound(data@.subrange(pos as int, end as int));
                }
                Ok((v as u8, end))
            },
            Err(e) => Err(e),
        }
    }
}

impl MyToBytes for u8 {
    open spec fn spec_write(&self, ty: SerdeType) -> Seq<u8> {
        le_bytes(*self as nat, 1nat)
    }

    fn write(&self, out: &mut Vec<u8>, ty: SerdeType) {
        proof {
            lemma_usize_bytes();
        }
        write_le(out, *self as u64, 1);
    }
}

impl MyFromBytes for u16 {
    open spec fn spec_read(data: Seq<u8>, ty: SerdeType) -> Option<(Self::V, nat)> {
        if data.len() >= 2nat {
            Some((le_value(data.take(2nat as int)) as u16, 2nat))
        } else {
            None
        }
    }

    fn read(data: &[u8], pos: usize, ty: SerdeType) -> (r: Result<(Self, usize), SerdeError>) {
        proof {
            lemma_usize_bytes();
            lemma_pow256_values();
        }
        let n: usize = 2;
        match read_le(data, pos, n) {
            Ok((v, end)) => {
                proof {
                    assert(data@.subrange(pos as int, pos + n) =~= data@.skip(pos as int).take(n as int));
                    lemma_le_value_bound(data@.subrange(pos as int, end as int));
                }
                Ok((v as u16, end))
            },
            Err(e) => Err(e),
        }
    }
}

impl MyToBytes for u16 {
    open spec fn spec_write(&self, ty: SerdeType) -> Seq<u8> {
        le_bytes(*self as nat, 2nat)
    }

    fn write(&self, out: &mut Vec<u8>, ty: SerdeType) {
        proof {
            lemma_usize_bytes();
        }
        write_le(out, *self as u64, 2);
    }
}

impl MyFromBytes for u32 {
    open spec fn spec_read(data: Seq<u8>, ty: SerdeType) -> Option<(Self::V, nat)> {
        if data.len() >= 4nat {
            Some((le_value(data.take(4nat as int)) as u32, 4nat))
        } else {
            None
        }
    }

    fn read(data: &[u8], pos: usize, ty: SerdeType) -> (r: Result<(Self, usize), SerdeError>) {
        proof {
            lemma_usize_bytes();
            lemma_pow256_values();
        }
        let n: usize = 4;
        match read_le(data, pos, n) {
            Ok((v, end)) => {
                proof {
                    assert(data@.subrange(pos as int, pos + n) =~= data@.skip(pos as int).take(n as int));
                    lemma_le_value_bound(data@.subrange(pos as int, end as int));
                }
                Ok((v as u32, end))
            },
            Err(e) => Err(e),
        }
    }
}

impl MyToBytes for u32 {
    open spec fn spec_write(&self, ty: SerdeType) -> Seq<u8> {
        le_bytes(*self as nat, 4nat)
    }

    fn write(&self, out: &mut Vec<u8>, ty: SerdeType) {
        proof {
            lemma_usize_bytes();
        }
        write_le(out, *self as u64, 4);
    }
}

impl MyFromBytes for u64 {
    open spec fn spec_read(data: Seq<u8>, ty: SerdeType) -> Option<(Self::V, nat)> {
        if data.len() >= 8nat {
            Some((le_value(data.take(8nat as int)) as u64, 8nat))
        } else {
            None
        }
    }

    fn read(data: &[u8], pos: usize, ty: SerdeType) -> (r: Result<(Self, usize), SerdeError>) {
        proof {
            lemma_usize_bytes();
            lemma_pow256_values();
        }
        let n: usize = 8;
        match read_le(data, pos, n) {
            Ok((v, end)) => {
                proof {
                    assert(data@.subrange(pos as int, pos + n) =~= data@.skip(pos as int).take(n as int));
                    lemma_le_value_bound(data@.subrange(pos as int, end as int));
                }
                Ok((v as u64, end))
            },
            Err(e) => Err(e),
        }
    }
}

impl MyToBytes for u64 {
    open spec fn spec_write(&self, ty: SerdeType) -> Seq<u8> {
        le_bytes(*self as nat, 8nat)
    }

    fn write(&self, out: &mut Vec<u8>, ty: SerdeType) {
        proof {
            lemma_usize_bytes();
        }
        write_le(out, *self as u64, 8);
    }
}

/// A `usize` at the front of `data`, with the number of bytes it takes.
pub open spec fn spec_read_usize(data: Seq<u8>) -> Option<(usize, nat)> {
    if data.len() >= usize_bytes() {
        Some((le_value(data.take(usize_bytes() as int)) as usize, usize_bytes()))
    } else {
        None
    }
}

/// Reads a `usize` at `pos`.
fn read_usize(data: &[u8], pos: usize) -> (r: Result<(usize, usize), SerdeError>)
    requires
        pos <= data@.len(),
    ensures
        match r {
            Ok((v, end)) => pos <= end <= data@.len() && spec_read_usize(data@.skip(pos as int)) == Some(
                (v, (end - pos) as nat),
            ),
            Err(_) => spec_read_usize(data@.skip(pos as int)) is None,
        },
{
    proof {
        lemma_usize_bytes();
        lemma_pow256_values();
    }
    let n: usize = (usize::BITS / 8) as usize;
    match read_le(data, pos, n) {
        Ok((v, end)) => {
            proof {
                assert(data@.subrange(pos as int, pos + n) =~= data@.skip(pos as int).take(n as int));
                lemma_le_value_bound(data@.subrange(pos as int, end as int));
            }
            Ok((v as usize, end))
        },
        Err(e) => Err(e),
    }
}

/// Appends the bytes of a `usize`.
fn write_usize(out: &mut Vec<u8>, x: usize)
    ensures
        final(out)@ == old(out)@ + le_bytes(x as nat, usize_bytes()),
{
    proof {
        lemma_usize_bytes();
    }
    write_le(out, x as u64, (usize::BITS / 8) as usize);
}

impl MyFromBytes for usize {
    open spec fn spec_read(data: Seq<u8>, ty: SerdeType) -> Option<(Self::V, nat)> {
        spec_read_usize(data)
    }

    fn read(data: &[u8], pos: usize, ty: SerdeType) -> (r: Result<(Self, usize), SerdeError>) {
        read_usize(data, pos)
    }
}

impl MyToBytes for usize {
    open spec fn spec_write(&self, ty: SerdeType) -> Seq<u8> {
        le_bytes(*self as nat, usize_bytes())
    }

    fn write(&self, out: &mut Vec<u8>, ty: SerdeType) {
        write_usize(out, *self);
    }
}

impl MyFromBytes for Vec<u8> {
    open spec fn spec_read(data: Seq<u8>, ty: SerdeType) -> Option<(Seq<u8>, nat)> {
        match spec_read_usize(data) {
            None => None,
            Some((len, k)) => if data.len() >= k + len {
                Some((data.subrange(k as int, (k + len) as int), (k + len) as nat))
            } else {
                None
            },
        }
    }

    fn read(data: &[u8], pos: usize, ty: SerdeType) -> (r: Result<(Self, usize), SerdeError>) {
        let (length, start) = match read_usize(data, pos) {
            Ok(x) => x,
            Err(e) => return Err(e),
        };
        if length > data.len() - start {
            return Err(SerdeError::UnexpectedEof);
        }
        let mut answer: Vec<u8> = Vec::with_capacity(length);
        let mut i: usize = 0;
        while i < length
            invariant
                i <= length,
                start + length <= data@.len(),
                answer@ == data@.subrange(start as int, start + i),
            decreases length - i,
        {
            answer.push(data[start + i]);
            i = i + 1;
        }
        proof {
            let d = data@.skip(pos as int);
            assert(d.subrange((start - pos) as int, (start - pos) + length) =~= answer@);
        }
        Ok((answer, start + length))
    }
}

impl MyToBytes for Vec<u8> {
    open spec fn spec_write(&self, ty: SerdeType) -> Seq<u8> {
        le_bytes(self@.len(), usize_bytes()) + self@
    }

    fn write(&self, out: &mut Vec<u8>, ty: SerdeType) {
        write_usize(out, self.len());
        let ghost start = out@;
        let mut i: usize = 0;
        while i < self.len()
            invariant
                i <= self@.len(),
                out@ == start + self@.subrange(0, i as int),
            decreases self@.len() - i,
        {
            out.push(self[i]);
            i = i + 1;
        }
        assert(self@.subrange(0, self@.len() as int) =~= self@);
    }
}

/// A 32-byte hash.
pub type HashBytes = [u8; 32];

impl MyFromBytes for [u8; 32] {
    open spec fn spec_read(data: Seq<u8>, ty: SerdeType) -> Option<(Seq<u8>, nat)> {
        if data.len() >= 32 {
            Some((data.take(32), 32))
        } else {
            None
        }
    }

    fn read(data: &[u8], pos: usize, ty: SerdeType) -> (r: Result<(Self, usize), SerdeError>) {
        if data.len() - pos < 32 {
            return Err(SerdeError::UnexpectedEof);
        }
        let mut answer: [u8; 32] = [0u8; 32];
        let mut i: usize = 0;
        while i < 32
            invariant
                i <= 32,
                pos + 32 <= data@.len(),
                answer@.len() == 32,
                forall|j: int| 0 <= j < i ==> #[trigger] answer@[j] == data@[pos + j],
            decreases 32 - i,
        {
            answer[i] = data[pos + i];
            i = i + 1;
        }
        assert(answer@ =~= data@.skip(pos as int).take(32));
        Ok((answer, pos + 32))
    }
}

impl MyToBytes for [u8; 32] {
    open spec fn spec_write(&self, ty: SerdeType) -> Seq<u8> {
        self@
    }

    fn write(&self, out: &mut Vec<u8>, ty: SerdeType) {
        let ghost start = out@;
        let mut i: usize = 0;
        while i < 32
            invariant
                i <= 32,
                self@.len() == 32,
                out@ == start + self@.subrange(0, i as int),
            decreases 32 - i,
        {
            out.push(self[i]);
            i = i + 1;
        }
        assert(self@.subrange(0, 32) =~= self@);
    }
}

/// The `n` bytes of `x` followed by anything read back as `x`.
pub proof fn lemma_le_read_back(x: nat, n: nat, rest: Seq<u8>)
    requires
        x < pow256(n),
    ensures
        (le_bytes(x, n) + rest).len() >= n,
        (le_bytes(x, n) + rest).take(n as int) == le_bytes(x, n),
        le_value((le_bytes(x, n) + rest).take(n as int)) == x,
{
    lemma_le_bytes_len(x, n);
    assert((le_bytes(x, n) + rest).take(n as int) =~= le_bytes(x, n));
    lemma_le_roundtrip(x, n);
}

/// A `u32` written and read back, whatever follows it, is the same `u32`.
pub proof fn lemma_u32_roundtrip(x: u32, ty: SerdeType, rest: Seq<u8>)
    ensures
        <u32 as MyFromBytes>::spec_read(x.spec_write(ty) + rest, ty) == Some((x, 4nat)),
{
    lemma_pow256_values();
    lemma_le_read_back(x as nat, 4, rest);
}

/// A `u8` written and read back, whatever follows it, is the same `u8`.
pub proof fn lemma_u8_roundtrip(x: u8, ty: SerdeType, rest: Seq<u8>)
    ensures
        <u8 as MyFromBytes>::spec_read(x.spec_write(ty) + rest, ty) == Some((x, 1nat)),
{
    lemma_pow256_values();
    lemma_le_read_back(x as nat, 1, rest);
}

/// A `u64` written and read back, whatever follows it, is the same `u64`.
pub proof fn lemma_u64_roundtrip(x: u64, ty: SerdeType, rest: Seq<u8>)
    ensures
        <u64 as MyFromBytes>::spec_read(x.spec_write(ty) + rest, ty) == Some((x, 8nat)),
{
    lemma_pow256_values();
    lemma_le_read_back(x as nat, 8, rest);
}

/// A `usize` written and read back, whatever follows it, is the same `usize`.
pub proof fn lemma_usize_roundtrip(x: usize, ty: SerdeType, rest: Seq<u8>)
    ensures
        <usize as MyFromBytes>::spec_read(x.spec_write(ty) + rest, ty) == Some((x, usize_bytes())),
{
    lemma_usize_bytes();
    lemma_le_read_back(x as nat, usize_bytes(), rest);
}

/// A byte string written and read back, whatever follows it, is the same
/// byte string.
pub proof fn lemma_bytes_roundtrip(x: Vec<u8>, ty: SerdeType, rest: Seq<u8>)
    requires
        x@.len() <= usize::MAX,
    ensures
        <Vec<u8> as MyFromBytes>::spec_read(x.spec_write(ty) + rest, ty) == Some(
            (x@, usize_bytes() + x@.len()),
        ),
{
    lemma_usize_bytes();
    let len = x@.len();
    let data = x.spec_write(ty) + rest;
    assert(data =~= le_bytes(len, usize_bytes()) + (x@ + rest));
    lemma_le_read_back(len, usize_bytes(), x@ + rest);
    lemma_le_bytes_len(len, usize_bytes());
    assert(data.subrange(usize_bytes() as int, (usize_bytes() + len) as int) =~= x@);
}

/// A type that can be written as bytes.
pub trait MyToBytes: Sized {
    /// The bytes that encode the value.
    spec fn spec_write(&self, ty: SerdeType) -> Seq<u8>;

    /// Appends the encoding of the value to `out`.
    fn write(&self, out: &mut Vec<u8>, ty: SerdeType)
        ensures
            final(out)@ == old(out)@ + self.spec_write(ty),
    ;

    /// The encoding of the value.
    fn to_bytes(&self, ty: SerdeType) -> (r: Vec<u8>)
        ensures
            r@ == self.spec_write(ty),
    {
        let mut serialized: Vec<u8> = Vec::new();
        <Self as MyToBytes>::write(self, &mut serialized, ty);
        assert(serialized@ =~= self.spec_write(ty));
        serialized
    }

    /// The encoding of the value in the local form.
    fn to_bytes_local(&self) -> (r: Vec<u8>)
        ensures
            r@ == self.spec_write(SerdeType { consistent: false }),
    {
        <Self as MyToBytes>::to_bytes(self, SerdeType { consistent: false })
    }

    /// The encoding of the value in the consensus form.
    fn to_bytes_consensus(&self) -> (r: Vec<u8>)
        ensures
            r@ == self.spec_write(SerdeType { consistent: true }),
    {
        <Self as MyToBytes>::to_bytes(self, SerdeType { consistent: true })
    }
}

/// Appends the length of `vec_self` (a `usize`) and then each value.
pub fn write_vec<T: MyToBytes>(vec_self: &Vec<T>, out: &mut Vec<u8>, ty: SerdeType)
    ensures
        final(out)@ == old(out)@ + spec_write_vec(vec_self@, ty),
{
    write_usize(out, vec_self.len());
    let ghost start = out@;
    let mut i: usize = 0;
    while i < vec_self.len()
        invariant
            i <= vec_self@.len(),
            out@ == start + spec_write_many(vec_self@.subrange(0, i as int), ty),
        decreases vec_self@.len() - i,
    {
        <T as MyToBytes>::write(&vec_self[i], out, ty);
        proof {
            assert(vec_self@.subrange(0, i + 1).drop_last() =~= vec_self@.subrange(0, i as int));
        }
        i = i + 1;
    }
    assert(vec_self@.subrange(0, vec_self@.len() as int) =~= vec_self@);
}

/// The encodings of a sequence of values, one after another.
pub open spec fn spec_write_many<T: MyToBytes>(items: Seq<T>, ty: SerdeType) -> Seq<u8>
    decreases items.len(),
{
    if items.len() == 0 {
        Seq::empty()
    } else {
        spec_write_many(items.drop_last(), ty) + items.last().spec_write(ty)
    }
}

/// A length-prefixed vector of values.
pub open spec fn spec_write_vec<T: MyToBytes>(items: Seq<T>, ty: SerdeType) -> Seq<u8> {
    le_bytes(items.len(), usize_bytes()) + spec_write_many(items, ty)
}

} // verus!
