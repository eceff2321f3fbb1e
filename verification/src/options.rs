//! The benchmark's options: which authenticated storage and backend to run,
//! how many keys, and the names of the directories that warmed-up databases
//! are kept in; with the parsers of the option values.

use vstd::prelude::*;
use vstd::string::StringExecFns;
use vstd::string::StringSliceAdditionalSpecFns;

verus! {

/// The authenticated storage under test.
#[derive(Debug, Clone, Copy, PartialEq, Eq, Structural)]
pub enum AuthAlgo {
    RAW,
    AMT(usize),
    LVMT,
    MPT,
    LMPTS,
    RAIN,
}

/// The key-value database underneath.
#[derive(Debug, Clone, Copy, PartialEq, Eq, Structural)]
pub enum Backend {
    RocksDB,
    InMemoryDB,
    MDBX,
}

/// The options of a benchmark run.
pub struct Options {
    pub algorithm: AuthAlgo,
    pub backend: Backend,
    pub total_keys: usize,
    pub seed: u64,
    pub cache_size: u64,
    pub max_time: Option<u64>,
    pub max_epoch: Option<usize>,
    pub report_epoch: usize,
    pub profile_epoch: usize,
    pub epoch_size: usize,
    pub report_dir: Option<String>,
    pub db_dir: String,
    pub trace_dir: String,
    pub real_trace: bool,
    pub no_stat: bool,
    pub stat_mem: bool,
    pub no_warmup: bool,
    pub print_root: bool,
    pub warmup_to: Option<String>,
    pub warmup_from: Option<String>,
    pub shards: Option<usize>,
}

/// Why a decimal number could not be read.
pub enum NumError {
    /// The text is empty.
    Empty,
    /// A character is not a decimal digit.
    InvalidDigit,
    /// The number does not fit in a `usize`.
    PosOverflow,
}

/// `true` for the bytes of the ASCII digits.
pub open spec fn is_digit(b: u8) -> bool {
    48 <= b <= 57
}

/// Reads the digits of `d` after the value `acc` read so far: the first
/// non-digit is an error, and so is a value that grows past `usize::MAX`.
pub open spec fn scan_digits(d: Seq<u8>, acc: nat) -> Result<nat, NumError>
    decreases d.len(),
{
    if d.len() == 0 {
        Ok(acc)
    } else if !is_digit(d[0]) {
        Err(NumError::InvalidDigit)
    } else {
        let n = acc * 10 + (d[0] - 48);
        if n > usize::MAX {
            Err(NumError::PosOverflow)
        } else {
            scan_digits(d.drop_first(), n as nat)
        }
    }
}

/// How a `usize` is read from text: an optional `+`, then one or more
/// decimal digits, read left to right.
pub open spec fn read_usize(s: Seq<u8>) -> Result<nat, NumError> {
    if s.len() == 0 {
        Err(NumError::Empty)
    } else if s[0] == 43 {
        if s.len() == 1 {
            Err(NumError::InvalidDigit)
        } else {
            scan_digits(s.drop_first(), 0)
        }
    } else {
        scan_digits(s, 0)
    }
}

/// The message of a reading error.
pub open spec fn num_error_message(e: NumError) -> Seq<char> {
    match e {
        NumError::Empty => "cannot parse integer from empty string"@,
        NumError::InvalidDigit => "invalid digit found in string"@,
        NumError::PosOverflow => "number too large to fit in target type"@,
    }
}

/// The message of a reading error, as a string.
fn num_error_string(e: NumError) -> (r: String)
    ensures
        r@ == num_error_message(e),
{
    match e {
        NumError::Empty => String::from_str("cannot parse integer from empty string"),
        NumError::InvalidDigit => String::from_str("invalid digit found in string"),
        NumError::PosOverflow => String::from_str("number too large to fit in target type"),
    }
}

/// Reads a `usize` from the bytes `s[from..to]` (see `read_usize`).
pub fn parse_usize(s: &[u8], from: usize, to: usize) -> (r: Result<usize, NumError>)
    requires
        from <= to <= s@.len(),
    ensures
        match (r, read_usize(s@.subrange(from as int, to as int))) {
            (Ok(v), Ok(n)) => v == n,
            (Err(NumError::Empty), Err(NumError::Empty)) => true,
            (Err(NumError::InvalidDigit), Err(NumError::InvalidDigit)) => true,
            (Err(NumError::PosOverflow), Err(NumError::PosOverflow)) => true,
            _ => false,
        },
{
    let ghost t = s@.subrange(from as int, to as int);
    if from == to {
        return Err(NumError::Empty);
    }
    let mut i = from;
    if s[from] == 43 {
        if from + 1 == to {
            return Err(NumError::InvalidDigit);
        }
        i = from + 1;
        assert(t.drop_first() =~= s@.subrange(i as int, to as int));
    } else {
        assert(t =~= s@.subrange(i as int, to as int));
    }
    let mut acc: usize = 0;
    while i < to
        invariant
            from <= i <= to <= s@.len(),
            t == s@.subrange(from as int, to as int),
            read_usize(t) == scan_digits(s@.subrange(i as int, to as int), acc as nat),
        decreases to - i,
    {
        let b = s[i];
        let ghost rest = s@.subrange(i as int, to as int);
        assert(rest[0] == b);
        assert(rest.drop_first() =~= s@.subrange(i + 1, to as int));
        if b < 48 || b > 57 {
            return Err(NumError::InvalidDigit);
        }
        let d = (b - 48) as usize;
        match acc.checked_mul(10) {
            None => {
                return Err(NumError::PosOverflow);
            },
            Some(m) => match m.checked_add(d) {
                None => {
                    return Err(NumError::PosOverflow);
                },
                Some(n) => {
                    acc = n;
                },
            },
        }
        i = i + 1;
    }
    assert(s@.subrange(i as int, to as int) =~= Seq::<u8>::empty());
    Ok(acc)
}

/// The bytes `s` are exactly `lit`.
fn bytes_equal(s: &[u8], lit: &[u8]) -> (r: bool)
    ensures
        r == (s@ == lit@),
{
    if s.len() != lit.len() {
        return false;
    }
    let mut i: usize = 0;
    while i < s.len()
        invariant
            i <= s@.len(),
            s@.len() == lit@.len(),
            forall|j: int| 0 <= j < i ==> s@[j] == lit@[j],
        decreases s@.len() - i,
    {
        if s[i] != lit[i] {
            return false;
        }
        i = i + 1;
    }
    assert(s@ =~= lit@);
    true
}

/// What `parse_algo` gives for the bytes `b`: `amt` followed by a number
/// (the text being at least four bytes long) names a single tree of that
/// depth; `raw`, `lvmt`, `mpt`, `lmpts` and `rain` name the others.
pub open spec fn algo_of(b: Seq<u8>) -> Result<AuthAlgo, Seq<char>> {
    if b.len() >= 4 && b.take(3) == seq![97u8, 109, 116] {
        match read_usize(b.skip(3)) {
            Ok(n) => Ok(AuthAlgo::AMT(n as usize)),
            Err(e) => Err(num_error_message(e)),
        }
    } else if b == seq![114u8, 97, 119] {
        Ok(AuthAlgo::RAW)
    } else if b == seq![108u8, 118, 109, 116] {
        Ok(AuthAlgo::LVMT)
    } else if b == seq![109u8, 112, 116] {
        Ok(AuthAlgo::MPT)
    } else if b == seq![108u8, 109, 112, 116, 115] {
        Ok(AuthAlgo::LMPTS)
    } else if b == seq![114u8, 97, 105, 110] {
        Ok(AuthAlgo::RAIN)
    } else {
        Err("Unrecognized algorithm"@)
    }
}

/// The view of a result whose error is a string.
pub open spec fn str_result<T>(r: Result<T, String>) -> Result<T, Seq<char>> {
    match r {
        Ok(v) => Ok(v),
        Err(e) => Err(e@),
    }
}

/// Reads the name of an authenticated storage (see `algo_of`).
pub fn parse_algo(s: &str) -> (r: Result<AuthAlgo, String>)
    ensures
        str_result(r) == algo_of(s.spec_bytes()),
{
    let b = s.as_bytes();
    if b.len() >= 4 && b[0] == 97 && b[1] == 109 && b[2] == 116 {
        assert(b@.take(3) =~= seq![97u8, 109, 116]);
        assert(b@.subrange(3, b@.len() as int) =~= b@.skip(3));
        return match parse_usize(b, 3, b.len()) {
            Ok(n) => Ok(AuthAlgo::AMT(n)),
            Err(e) => Err(num_error_string(e)),
        };
    }
    proof {
        if b@.len() >= 4 {
            assert(b@.take(3)[0] == b@[0] && b@.take(3)[1] == b@[1] && b@.take(3)[2] == b@[2]);
        }
    }
    let raw: [u8; 3] = [114, 97, 119];
    let lvmt: [u8; 4] = [108, 118, 109, 116];
    let mpt: [u8; 3] = [109, 112, 116];
    let lmpts: [u8; 5] = [108, 109, 112, 116, 115];
    let rain: [u8; 4] = [114, 97, 105, 110];
    assert(raw@ =~= seq![114u8, 97, 119]);
    assert(lvmt@ =~= seq![108u8, 118, 109, 116]);
    assert(mpt@ =~= seq![109u8, 112, 116]);
    assert(lmpts@ =~= seq![108u8, 109, 112, 116, 115]);
    assert(rain@ =~= seq![114u8, 97, 105, 110]);
    if bytes_equal(b, raw.as_slice()) {
        Ok(AuthAlgo::RAW)
    } else if bytes_equal(b, lvmt.as_slice()) {
        Ok(AuthAlgo::LVMT)
    } else if bytes_equal(b, mpt.as_slice()) {
        Ok(AuthAlgo::MPT)
    } else if bytes_equal(b, lmpts.as_slice()) {
        Ok(AuthAlgo::LMPTS)
    } else if bytes_equal(b, rain.as_slice()) {
        Ok(AuthAlgo::RAIN)
    } else {
        Err(String::from_str("Unrecognized algorithm"))
    }
}

/// What `parse_backend` gives for the bytes `b`: `rocksdb`, `memory` or
/// `mdbx`.
pub open spec fn backend_of(b: Seq<u8>) -> Result<Backend, Seq<char>> {
    if b == seq![114u8, 111, 99, 107, 115, 100, 98] {
        Ok(Backend::RocksDB)
    } else if b == seq![109u8, 101, 109, 111, 114, 121] {
        Ok(Backend::InMemoryDB)
    } else if b == seq![109u8, 100, 98, 120] {
        Ok(Backend::MDBX)
    } else {
        Err("Unrecognized backend"@)
    }
}

/// Reads the name of a backend (see `backend_of`).
pub fn parse_backend(s: &str) -> (r: Result<Backend, String>)
    ensures
        str_result(r) == backend_of(s.spec_bytes()),
{
    let b = s.as_bytes();
    let rocksdb: [u8; 7] = [114, 111, 99, 107, 115, 100, 98];
    let memory: [u8; 6] = [109, 101, 109, 111, 114, 121];
    let mdbx: [u8; 4] = [109, 100, 98, 120];
    assert(rocksdb@ =~= seq![114u8, 111, 99, 107, 115, 100, 98]);
    assert(memory@ =~= seq![109u8, 101, 109, 111, 114, 121]);
    assert(mdbx@ =~= seq![109u8, 100, 98, 120]);
    if bytes_equal(b, rocksdb.as_slice()) {
        Ok(Backend::RocksDB)
    } else if bytes_equal(b, memory.as_slice()) {
        Ok(Backend::InMemoryDB)
    } else if bytes_equal(b, mdbx.as_slice()) {
        Ok(Backend::MDBX)
    } else {
        Err(String::from_str("Unrecognized backend"))
    }
}

/// The multiplier that a last byte of a number stands for: `k`, `m` and `g`
/// (either case) for thousands, millions and billions, 1 otherwise.
pub open spec fn suffix_base(c: u8) -> nat {
    if c == 107 || c == 75 {
        1_000
    } else if c == 109 || c == 77 {
        1_000_000
    } else if c == 103 || c == 71 {
        1_000_000_000
    } else {
        1
    }
}

/// The digits of a number with its suffix, if any, removed.
pub open spec fn num_digits(b: Seq<u8>) -> Seq<u8> {
    if suffix_base(b.last()) > 1 {
        b.drop_last()
    } else {
        b
    }
}

/// What `parse_num` gives for the bytes `b`.
pub open spec fn num_of(b: Seq<u8>) -> Result<int, Seq<char>> {
    if b.len() == 0 {
        Err("empty input"@)
    } else {
        match read_usize(num_digits(b)) {
            Ok(n) => Ok((suffix_base(b.last()) * n) as int),
            Err(e) => Err(num_error_message(e)),
        }
    }
}

/// Reads a number of keys, with an optional suffix `k`, `m` or `g` (see
/// `num_of`). The product must fit in a `usize`.
pub fn parse_num(s: &str) -> (r: Result<usize, String>)
    requires
        num_of(s.spec_bytes()) matches Ok(n) ==> n <= usize::MAX,
    ensures
        match (r, num_of(s.spec_bytes())) {
            (Ok(v), Ok(n)) => v == n,
            (Err(e), Err(m)) => e@ == m,
            _ => false,
        },
{
    let b = s.as_bytes();
    if b.len() == 0 {
        return Err(String::from_str("empty input"));
    }
    let last = b[b.len() - 1];
    let base: usize = if last == 107 || last == 75 {
        1_000
    } else if last == 109 || last == 77 {
        1_000_000
    } else if last == 103 || last == 71 {
        1_000_000_000
    } else {
        1
    };
    assert(base == suffix_base(b@.last()));
    let end: usize = if base > 1 {
        b.len() - 1
    } else {
        b.len()
    };
    assert(b@.subrange(0, end as int) =~= num_digits(b@));
    match parse_usize(b, 0, end) {
        Ok(n) => {
            assert(base * n <= usize::MAX);
            Ok(base * n)
        },
        Err(e) => Err(num_error_string(e)),
    }
}

/// The character of the decimal digit `d`.
pub open spec fn digit_char(d: nat) -> char {
    if d == 0 {
        '0'
    } else if d == 1 {
        '1'
    } else if d == 2 {
        '2'
    } else if d == 3 {
        '3'
    } else if d == 4 {
        '4'
    } else if d == 5 {
        '5'
    } else if d == 6 {
        '6'
    } else if d == 7 {
        '7'
    } else if d == 8 {
        '8'
    } else {
        '9'
    }
}

/// The decimal digit values of `n`, most significant first.
pub open spec fn digit_values(n: nat) -> Seq<u8>
    decreases n,
{
    if n < 10 {
        seq![n as u8]
    } else {
        digit_values(n / 10).push((n % 10) as u8)
    }
}

/// Digit values as characters.
pub open spec fn digit_chars(ds: Seq<u8>) -> Seq<char> {
    ds.map_values(|d: u8| digit_char(d as nat))
}

/// `n` in decimal.
pub open spec fn decimal(n: nat) -> Seq<char> {
    digit_chars(digit_values(n))
}

/// The digits up to the last one that is not zero (a lone zero stays).
pub open spec fn significant(ds: Seq<u8>) -> Seq<u8>
    decreases ds.len(),
{
    if ds.len() > 1 && ds.last() == 0 {
        significant(ds.drop_last())
    } else {
        ds
    }
}

/// `n` in scientific notation, as the `{:e}` format writes an integer: its
/// significant digits, with a point after the first when there are more than
/// one, then `e` and the number of its digits less one.
pub open spec fn lower_exp(n: nat) -> Seq<char> {
    let ds = digit_values(n);
    let sig = significant(ds);
    let mant = if sig.len() > 1 {
        seq![digit_char(sig[0] as nat), '.'] + digit_chars(sig.skip(1))
    } else {
        digit_chars(sig)
    };
    mant + seq!['e'] + decimal((ds.len() - 1) as nat)
}

/// A number has at least one digit, and every digit is below ten.
pub proof fn lemma_digit_values(n: nat)
    ensures
        digit_values(n).len() >= 1,
        forall|i: int| 0 <= i < digit_values(n).len() ==> #[trigger] digit_values(n)[i] < 10,
    decreases n,
{
    if n >= 10 {
        lemma_digit_values(n / 10);
        assert forall|i: int| 0 <= i < digit_values(n).len() implies #[trigger] digit_values(n)[i] < 10 by {
            if i < digit_values(n).len() - 1 {
                assert(digit_values(n)[i] == digit_values(n / 10)[i]);
            }
        }
    }
}

/// The one-character string of the digit `d`.
fn digit_str(d: u8) -> (r: &'static str)
    requires
        d < 10,
    ensures
        r@ == seq![digit_char(d as nat)],
{
    if d == 0 {
        proof { reveal_strlit("0"); }
        "0"
    } else if d == 1 {
        proof { reveal_strlit("1"); }
        "1"
    } else if d == 2 {
        proof { reveal_strlit("2"); }
        "2"
    } else if d == 3 {
        proof { reveal_strlit("3"); }
        "3"
    } else if d == 4 {
        proof { reveal_strlit("4"); }
        "4"
    } else if d == 5 {
        proof { reveal_strlit("5"); }
        "5"
    } else if d == 6 {
        proof { reveal_strlit("6"); }
        "6"
    } else if d == 7 {
        proof { reveal_strlit("7"); }
        "7"
    } else if d == 8 {
        proof { reveal_strlit("8"); }
        "8"
    } else {
        proof { reveal_strlit("9"); }
        "9"
    }
}

/// The decimal digit values of `n`.
fn digits_of(n: usize) -> (r: Vec<u8>)
    ensures
        r@ == digit_values(n as nat),
    decreases n,
{
    if n < 10 {
        let mut v: Vec<u8> = Vec::new();
        v.push(n as u8);
        assert(v@ =~= digit_values(n as nat));
        v
    } else {
        let mut v = digits_of(n / 10);
        v.push((n % 10) as u8);
        v
    }
}

/// Appends the digits `ds[from..to]` as characters.
fn push_digits(out: &mut String, ds: &Vec<u8>, from: usize, to: usize)
    requires
        from <= to <= ds@.len(),
        forall|i: int| 0 <= i < ds@.len() ==> #[trigger] ds@[i] < 10,
    ensures
        final(out)@ == old(out)@ + digit_chars(ds@.subrange(from as int, to as int)),
{
    let mut i = from;
    while i < to
        invariant
            from <= i <= to <= ds@.len(),
            forall|j: int| 0 <= j < ds@.len() ==> #[trigger] ds@[j] < 10,
            out@ == old(out)@ + digit_chars(ds@.subrange(from as int, i as int)),
        decreases to - i,
    {
        out.append(digit_str(ds[i]));
        assert(digit_chars(ds@.subrange(from as int, i + 1)) =~= digit_chars(
            ds@.subrange(from as int, i as int),
        ).push(digit_char(ds@[i as int] as nat)));
        i = i + 1;
    }
}

/// Appends `n` in decimal.
pub fn push_decimal(out: &mut String, n: usize)
    ensures
        final(out)@ == old(out)@ + decimal(n as nat),
{
    let ds = digits_of(n);
    proof {
        lemma_digit_values(n as nat);
    }
    push_digits(out, &ds, 0, ds.len());
    assert(ds@.subrange(0, ds@.len() as int) =~= ds@);
}

/// Appends `n` in scientific notation (see `lower_exp`).
pub fn push_lower_exp(out: &mut String, n: usize)
    ensures
        final(out)@ == old(out)@ + lower_exp(n as nat),
{
    let ds = digits_of(n);
    proof {
        lemma_digit_values(n as nat);
    }
    let mut k = ds.len();
    assert(ds@.take(k as int) =~= ds@);
    while k > 1 && ds[k - 1] == 0
        invariant
            1 <= k <= ds@.len(),
            significant(ds@) == significant(ds@.take(k as int)),
        decreases k,
    {
        assert(ds@.take(k as int).drop_last() =~= ds@.take(k - 1));
        k = k - 1;
    }
    let ghost sig = ds@.take(k as int);
    assert(significant(ds@) == sig);
    let ghost start = out@;
    out.append(digit_str(ds[0]));
    if k > 1 {
        proof {
            reveal_strlit(".");
        }
        out.append(".");
        push_digits(out, &ds, 1, k);
        assert(ds@.subrange(1, k as int) =~= sig.skip(1));
        assert(out@ =~= start + (seq![digit_char(sig[0] as nat), '.'] + digit_chars(sig.skip(1))));
    } else {
        assert(digit_chars(sig) =~= seq![digit_char(sig[0] as nat)]);
    }
    proof {
        reveal_strlit("e");
    }
    out.append("e");
    push_decimal(out, ds.len() - 1);
    assert(out@ =~= start + lower_exp(n as nat));
}

/// How an authenticated storage is named in reports: its variant, with the
/// depth in brackets for a single tree.
pub open spec fn algo_name(a: AuthAlgo) -> Seq<char> {
    match a {
        AuthAlgo::RAW => "RAW"@,
        AuthAlgo::AMT(n) => "AMT("@ + decimal(n as nat) + ")"@,
        AuthAlgo::LVMT => "LVMT"@,
        AuthAlgo::MPT => "MPT"@,
        AuthAlgo::LMPTS => "LMPTS"@,
        AuthAlgo::RAIN => "RAIN"@,
    }
}

/// Appends the name of `a` (see `algo_name`).
pub fn push_algo_name(out: &mut String, a: AuthAlgo)
    ensures
        final(out)@ == old(out)@ + algo_name(a),
{
    match a {
        AuthAlgo::RAW => out.append("RAW"),
        AuthAlgo::AMT(n) => {
            let ghost start = out@;
            out.append("AMT(");
            push_decimal(out, n);
            out.append(")");
            assert(out@ =~= start + algo_name(a));
        },
        AuthAlgo::LVMT => out.append("LVMT"),
        AuthAlgo::MPT => out.append("MPT"),
        AuthAlgo::LMPTS => out.append("LMPTS"),
        AuthAlgo::RAIN => out.append("RAIN"),
    }
}

impl Options {
    /// The code of the task: the number of keys in scientific notation, or
    /// `real` for a real trace.
    pub open spec fn task_code(&self) -> Seq<char> {
        if !self.real_trace {
            lower_exp(self.total_keys as nat)
        } else {
            "real"@
        }
    }

    /// The directory under `input` that a warmed-up database is kept in: one
    /// per storage and task, and per number of shards for a sharded LVMT.
    pub open spec fn spec_warmup_dir(&self, input: Seq<char>) -> Seq<char> {
        if self.algorithm != AuthAlgo::LVMT || self.shards is None {
            input + "/"@ + algo_name(self.algorithm) + "_"@ + self.task_code() + "/"@
        } else {
            input + "/LVMT"@ + decimal(self.shards->0 as nat) + "_"@ + self.task_code() + "/"@
        }
    }

    /// The directory under `input` for this run (see `spec_warmup_dir`).
    pub fn warmup_dir(&self, input: &str) -> (r: String)
        ensures
            r@ == self.spec_warmup_dir(input@),
    {
        let mut out = String::from_str(input);
        let ghost start = out@;
        let lvmt_sharded = match (self.algorithm, self.shards) {
            (AuthAlgo::LVMT, Some(_)) => true,
            _ => false,
        };
        match self.shards {
            Some(n) if lvmt_sharded => {
                out.append("/LVMT");
                push_decimal(&mut out, n);
            },
            _ => {
                out.append("/");
                push_algo_name(&mut out, self.algorithm);
            },
        }
        out.append("_");
        if !self.real_trace {
            push_lower_exp(&mut out, self.total_keys);
        } else {
            out.append("real");
        }
        out.append("/");
        assert(out@ =~= self.spec_warmup_dir(input@));
        out
    }

    /// The storage and the number of keys, as reports name the run.
    pub fn settings(&self) -> (r: String)
        ensures
            r@ == algo_name(self.algorithm) + ","@ + lower_exp(self.total_keys as nat),
    {
        let mut out = String::new();
        push_algo_name(&mut out, self.algorithm);
        out.append(",");
        push_lower_exp(&mut out, self.total_keys);
        assert(out@ =~= algo_name(self.algorithm) + ","@ + lower_exp(self.total_keys as nat));
        out
    }

    /// The directory to save the warmed-up database to, if asked for.
    pub fn warmup_to(&self) -> (r: Option<String>)
        ensures
            match (r, self.warmup_to) {
                (Some(d), Some(w)) => d@ == self.spec_warmup_dir(w@),
                (None, None) => true,
                _ => false,
            },
    {
        match &self.warmup_to {
            Some(w) => Some(self.warmup_dir(w.as_str())),
            None => None,
        }
    }

    /// The directory to load a warmed-up database from, if asked for.
    pub fn warmup_from(&self) -> (r: Option<String>)
        ensures
            match (r, self.warmup_from) {
                (Some(d), Some(w)) => d@ == self.spec_warmup_dir(w@),
                (None, None) => true,
                _ => false,
            },
    {
        match &self.warmup_from {
            Some(w) => Some(self.warmup_dir(w.as_str())),
            None => None,
        }
    }

    /// The number of database columns the storage uses: three for LVMT, one
    /// for the others.
    pub fn num_cols(&self) -> (r: u32)
        ensures
            r == (if self.algorithm == AuthAlgo::LVMT {
                3u32
            } else {
                1u32
            }),
    {
        match self.algorithm {
            AuthAlgo::LVMT => 3,
            _ => 1,
        }
    }
}

} // verus!
