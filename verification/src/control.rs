//! Names, configuration, repository walking rules, hashing, and time.

use vstd::prelude::*;
use vstd::string::StringSliceAdditionalSpecFns;
use crate::glob::GlobSet;
use crate::json::{Json, JsonV, member, member2, text_of, u64_of};
use crate::text::{chars_of, chars_eq, string_of, trim, trimmed, zero_padded, zero_padded_chars};
use crate::guard::same_str;

verus! {

pub const GOALS: &'static str = "goals";

pub const CONFIG: &'static str = "loop.json";

pub const STATE: &'static str = "STATE.json";

/// Where a gap's cause lives. Naming this is what stops a loop from changing
/// the nearest thing instead of the right thing.
pub const LAYERS: [&'static str; 7] = ["world", "domain", "contract", "runtime", "steering", "surface", "harness"];

/// Layers that are not product rounds: the round stops and a person decides.
pub const ESCALATE_LAYERS: [&'static str; 2] = ["world", "harness"];

/// Directories the fallback walk skips when git cannot say what is tracked.
pub const IGNORE_DIRS: [&'static str; 11] = [
    ".git",
    "node_modules",
    "__pycache__",
    ".venv",
    "venv",
    "dist",
    "build",
    ".next",
    ".pytest_cache",
    ".mypy_cache",
    "target",
];

/// Conventional exit code for "killed after a timeout", as `timeout(1)` uses.
pub const EXIT_TIMEOUT: i32 = 124;

/// An error that ends a command, with the message a person reads.
pub struct LoopError(pub String);

impl LoopError {
    /// The message.
    pub fn message(&self) -> (r: &str)
        ensures
            r@ == self.0@,
    {
        self.0.as_str()
    }
}

pub type Res<T> = Result<T, LoopError>;

/// Fails with `msg`.
pub fn err<T>(msg: String) -> (r: Res<T>)
    ensures
        r matches Err(e) && e.0@ == msg@,
{
    Err(LoopError(msg))
}

/// Files the tool rewrites every round itself; never a product change.
pub open spec fn bookkeeping(rel: Seq<char>) -> bool {
    rel == "goals/STATE.json"@ || rel == "goals/STATE.md"@ || rel == "goals/proposals.md"@
}

pub fn is_bookkeeping(rel: &str) -> (r: bool)
    ensures
        r == bookkeeping(rel@),
{
    same_str(rel, "goals/STATE.json") || same_str(rel, "goals/STATE.md") || same_str(rel, "goals/proposals.md")
}

/// Whether `s` begins with `p`.
pub open spec fn has_prefix(s: Seq<char>, p: Seq<char>) -> bool {
    p.len() <= s.len() && s.take(p.len() as int) == p
}

pub fn starts_with(s: &str, p: &str) -> (r: bool)
    ensures
        r == has_prefix(s@, p@),
{
    let a = chars_of(s);
    let b = chars_of(p);
    if b.len() > a.len() {
        return false;
    }
    let mut i: usize = 0;
    while i < b.len()
        invariant
            a@ == s@,
            b@ == p@,
            b@.len() <= a@.len(),
            i <= b@.len(),
            forall|j: int| 0 <= j < i ==> a@[j] == b@[j],
        decreases b@.len() - i,
    {
        if a[i] != b[i] {
            return false;
        }
        i = i + 1;
    }
    assert(s@.take(p@.len() as int) =~= p@);
    true
}

/// Whether the walk keeps the repository file `rel`: the round evidence
/// under `goals/rounds/` and the bookkeeping files are never guarded.
pub open spec fn walk_keeps_spec(rel: Seq<char>) -> bool {
    !has_prefix(rel, "goals/rounds/"@) && !bookkeeping(rel)
}

pub fn walk_keeps(rel: &str) -> (r: bool)
    ensures
        r == walk_keeps_spec(rel@),
{
    !starts_with(rel, "goals/rounds/") && !is_bookkeeping(rel)
}

/// Whether the walk skips a directory named `name`: `.git` always; the
/// conventional build directories too when git cannot say what is tracked.
pub open spec fn skips_dir_spec(name: Seq<char>, git_answers: bool) -> bool {
    name == ".git"@ || (!git_answers && exists|i: int| 0 <= i < IGNORE_DIRS@.len() && IGNORE_DIRS@[i]@ == name)
}

pub fn skips_dir(name: &str, git_answers: bool) -> (r: bool)
    ensures
        r == skips_dir_spec(name@, git_answers),
{
    if same_str(name, ".git") {
        return true;
    }
    if git_answers {
        return false;
    }
    let mut i: usize = 0;
    while i < 11
        invariant
            i <= 11,
            !git_answers,
            forall|j: int| 0 <= j < i ==> IGNORE_DIRS@[j]@ != name@,
        decreases 11 - i,
    {
        let d: &str = IGNORE_DIRS[i];
        if same_str(d, name) {
            proof {
                assert(IGNORE_DIRS@[i as int]@ == name@);
            }
            return true;
        }
        i = i + 1;
    }
    false
}

/// `s` cut to its first `n` characters.
pub open spec fn truncated(s: Seq<char>, n: nat) -> Seq<char> {
    if s.len() <= n {
        s
    } else {
        s.take(n as int)
    }
}

pub fn truncate(s: &str, n: usize) -> (r: String)
    ensures
        r@ == truncated(s@, n as nat),
{
    let cs = chars_of(s);
    if cs.len() <= n {
        return s.to_string();
    }
    let mut out: Vec<char> = Vec::new();
    for i in 0..n
        invariant
            cs@ == s@,
            n < cs@.len(),
            out@ == s@.take(i as int),
    {
        out.push(cs[i]);
        proof {
            assert(out@ =~= s@.take(i + 1));
        }
    }
    string_of(&out)
}

/// The last `n` bytes of the UTF-8 encoding `b` (all of it when it is
/// shorter).
pub open spec fn tail_bytes(b: Seq<u8>, n: nat) -> Seq<u8> {
    if b.len() <= n {
        b
    } else {
        b.skip(b.len() - n)
    }
}

/// Whether `tail(s, n)` cuts `s` where a character begins (or does not cut
/// it at all): the cut is counted in bytes of the UTF-8 text, and one that
/// falls inside a character cannot be made.
pub open spec fn tail_cut_ok(s: Seq<char>, n: nat) -> bool {
    let b = vstd::utf8::encode_utf8(s);
    b.len() <= n || vstd::utf8::is_char_boundary(b, b.len() - n)
}

/// The last `n` bytes of `s` (all of it when it is shorter). The cut must
/// fall where a character begins.
pub fn tail(s: &str, n: usize) -> (r: String)
    requires
        tail_cut_ok(s@, n as nat),
    ensures
        vstd::utf8::encode_utf8(r@) == tail_bytes(vstd::utf8::encode_utf8(s@), n as nat),
{
    proof {
        assert(s.spec_bytes() == vstd::utf8::encode_utf8(s@));
    }
    let len = s.as_bytes().len();
    if len <= n {
        return s.to_owned();
    }
    let (_head, rest) = s.split_at(len - n);
    proof {
        assert(rest.spec_bytes() =~= s.spec_bytes().skip(len - n));
        assert(rest.spec_bytes() == vstd::utf8::encode_utf8(rest@));
    }
    rest.to_owned()
}

/// Whether `tail(s, n)` would cut `s` where a character begins.
pub fn tail_cut_allowed(s: &str, n: usize) -> (r: bool)
    ensures
        r == tail_cut_ok(s@, n as nat),
{
    proof {
        assert(s.spec_bytes() == vstd::utf8::encode_utf8(s@));
    }
    let len = s.as_bytes().len();
    len <= n || s.is_char_boundary(len - n)
}

/// The directory name of round `n`: its number, zero-padded to three digits.
pub fn round_name(n: u64) -> (r: String)
    ensures
        r@ == zero_padded(n as nat, 3),
{
    string_of(&zero_padded_chars(n, 3))
}


/// The SHA-256 digest of a byte string.
pub uninterp spec fn sha256_of(bytes: Seq<u8>) -> Seq<u8>;

/// Hashes `bytes` with `sha2::Sha256` through `Digest::digest`.
///
/// Trusted: the result is named by `sha256_of` of the bytes, and it is 32
/// bytes long (the output size `sha2` gives SHA-256).
#[verifier::external_body]
fn sha256_digest(bytes: &[u8]) -> (r: Vec<u8>)
    ensures
        r@ == sha256_of(bytes@),
        r@.len() == 32,
{
    <sha2::Sha256 as sha2::Digest>::digest(bytes).to_vec()
}

/// The lowercase hexadecimal digit for `n` (below 16).
pub open spec fn hex_digit(n: int) -> char {
    if n < 10 {
        (48 + n) as char
    } else {
        (87 + n) as char
    }
}

/// `bytes` in lowercase hexadecimal, two digits a byte, high digit first.
pub open spec fn hex_of(bytes: Seq<u8>) -> Seq<char>
    decreases bytes.len(),
{
    if bytes.len() == 0 {
        Seq::empty()
    } else {
        hex_of(bytes.drop_last()) + seq![hex_digit((bytes.last() / 16) as int), hex_digit((bytes.last() % 16) as int)]
    }
}

fn hex_char(n: u8) -> (c: char)
    requires
        n < 16,
    ensures
        c == hex_digit(n as int),
{
    if n < 10 {
        (48u8 + n) as char
    } else {
        (87u8 + n) as char
    }
}

/// `bytes` in lowercase hexadecimal.
pub fn hex_lower(bytes: &[u8]) -> (r: String)
    ensures
        r@ == hex_of(bytes@),
{
    let mut out: Vec<char> = Vec::new();
    let n = bytes.len();
    for i in 0..n
        invariant
            n == bytes@.len(),
            out@ == hex_of(bytes@.take(i as int)),
    {
        let b = bytes[i];
        out.push(hex_char(b / 16));
        out.push(hex_char(b % 16));
        proof {
            assert(bytes@.take(i + 1).drop_last() =~= bytes@.take(i as int));
            assert(bytes@.take(i + 1).last() == b);
            assert(out@ =~= hex_of(bytes@.take(i as int)) + seq![hex_digit((b / 16) as int), hex_digit((b % 16) as int)]);
        }
    }
    proof {
        assert(bytes@.take(n as int) =~= bytes@);
    }
    string_of(&out)
}

/// The SHA-256 digest of a file's bytes in lowercase hexadecimal: the form in
/// which a snapshot records every guarded file.
pub fn sha256_hex(bytes: &[u8]) -> (r: String)
    ensures
        r@ == hex_of(sha256_of(bytes@)),
        r@.len() == 64,
{
    let d = sha256_digest(bytes);
    proof {
        lemma_hex_len(d@);
    }
    hex_lower(d.as_slice())
}

/// Hexadecimal takes two digits a byte.
pub proof fn lemma_hex_len(bytes: Seq<u8>)
    ensures
        hex_of(bytes).len() == 2 * bytes.len(),
    decreases bytes.len(),
{
    if bytes.len() > 0 {
        lemma_hex_len(bytes.drop_last());
    }
}

/// Seconds since the Unix epoch, read from the system clock with
/// `SystemTime::now` (0 when the clock stands before the epoch). Nothing is
/// promised of the value: it is the time.
#[verifier::external_body]
fn unix_seconds() -> (r: u64) {
    match std::time::SystemTime::now().duration_since(std::time::UNIX_EPOCH) {
        Ok(d) => d.as_secs(),
        Err(_) => 0,
    }
}

/// The civil (proleptic Gregorian) date of the day `days` days after
/// 1970-01-01, as year, month and day: Howard Hinnant's `civil_from_days`.
pub open spec fn civil_from_days(days: int) -> (int, int, int) {
    let z = days + 719468;
    let era = z / 146097;
    let doe = z - era * 146097;
    let yoe = (doe - doe / 1460 + doe / 36524 - doe / 146096) / 365;
    let y = yoe + era * 400;
    let doy = doe - (365 * yoe + yoe / 4 - yoe / 100);
    let mp = (5 * doy + 2) / 153;
    let d = doy - (153 * mp + 2) / 5 + 1;
    let m = if mp < 10 {
        mp + 3
    } else {
        mp - 9
    };
    (if m <= 2 {
        y + 1
    } else {
        y
    }, m, d)
}

/// `secs` seconds after the Unix epoch in UTC, as `YYYY-MM-DDTHH:MM:SSZ`.
pub open spec fn utc_stamp(secs: nat) -> Seq<char> {
    let days = secs / 86400;
    let rem = secs % 86400;
    let (y, m, d) = civil_from_days(days as int);
    zero_padded(y as nat, 4) + seq!['-'] + zero_padded(m as nat, 2) + seq!['-'] + zero_padded(d as nat, 2)
        + seq!['T'] + zero_padded((rem / 3600) as nat, 2) + seq![':'] + zero_padded(((rem % 3600) / 60) as nat, 2)
        + seq![':'] + zero_padded((rem % 60) as nat, 2) + seq!['Z']
}

fn append_chars(out: &mut Vec<char>, more: Vec<char>)
    ensures
        final(out)@ == old(out)@ + more@,
{
    let ghost start = out@;
    let n = more.len();
    for i in 0..n
        invariant
            n == more@.len(),
            out@ == start + more@.take(i as int),
    {
        out.push(more[i]);
        proof {
            assert(out@ =~= start + more@.take(i + 1));
        }
    }
    proof {
        assert(more@.take(n as int) =~= more@);
    }
}

/// `secs` seconds after the Unix epoch, in UTC.
pub fn format_utc(secs: u64) -> (r: String)
    ensures
        r@ == utc_stamp(secs as nat),
{
    let days: u64 = secs / 86400;
    let rem: u64 = secs % 86400;
    let z: u64 = days + 719468;
    let era: u64 = z / 146097;
    let doe: u64 = z - era * 146097;
    assert(doe < 146097);
    let yoe: u64 = (doe - doe / 1460 + doe / 36524 - doe / 146096) / 365;
    assert(yoe <= 400);
    let y: u64 = yoe + era * 400;
    let sub: u64 = 365 * yoe + yoe / 4 - yoe / 100;
    assert(sub <= doe) by (nonlinear_arith)
        requires
            doe < 146097,
            yoe == (doe - doe / 1460 + doe / 36524 - doe / 146096) / 365,
            sub == 365 * yoe + yoe / 4 - yoe / 100,
    ;
    let doy: u64 = doe - sub;
    let mp: u64 = (5 * doy + 2) / 153;
    let cut: u64 = (153 * mp + 2) / 5;
    assert(cut <= doy) by (nonlinear_arith)
        requires
            mp == (5 * doy + 2) / 153,
            cut == (153 * mp + 2) / 5,
    ;
    let d: u64 = doy - cut + 1;
    let m: u64 = if mp < 10 {
        mp + 3
    } else {
        assert(mp >= 10);
        mp - 9
    };
    let yy: u64 = if m <= 2 {
        y + 1
    } else {
        y
    };
    let mut out: Vec<char> = zero_padded_chars(yy, 4);
    out.push('-');
    append_chars(&mut out, zero_padded_chars(m, 2));
    out.push('-');
    append_chars(&mut out, zero_padded_chars(d, 2));
    out.push('T');
    append_chars(&mut out, zero_padded_chars(rem / 3600, 2));
    out.push(':');
    append_chars(&mut out, zero_padded_chars((rem % 3600) / 60, 2));
    out.push(':');
    append_chars(&mut out, zero_padded_chars(rem % 60, 2));
    out.push('Z');
    proof {
        let (sy, sm, sd) = civil_from_days(days as int);
        assert(sy == yy && sm == m && sd == d);
        assert(out@ =~= utc_stamp(secs as nat));
    }
    string_of(&out)
}

/// The current time in UTC, as `YYYY-MM-DDTHH:MM:SSZ`. These stamps are
/// records, and UTC is the unambiguous thing to record.
pub fn now() -> (r: String)
    ensures
        exists|secs: nat| r@ == utc_stamp(secs),
{
    let secs = unix_seconds();
    format_utc(secs)
}


pub proof fn lemma_day_of_era_year(doe: int, yoe: int, doy: int)
    by (nonlinear_arith)
    requires
        0 <= doe < 146097,
        yoe == (doe - doe / 1460 + doe / 36524 - doe / 146096) / 365,
        doy == doe - (365 * yoe + yoe / 4 - yoe / 100),
    ensures
        0 <= doy <= 365,
        0 <= yoe <= 399,
{
}

pub proof fn lemma_month_and_day(doy: int, mp: int, d: int)
    by (nonlinear_arith)
    requires
        0 <= doy <= 365,
        mp == (5 * doy + 2) / 153,
        d == doy - (153 * mp + 2) / 5 + 1,
    ensures
        0 <= mp <= 11,
        1 <= d <= 31,
{
}

/// A civil date is a date: its month is one of twelve and its day one of at
/// most thirty-one.
pub proof fn lemma_civil_date_in_range(days: nat)
    ensures
        1 <= civil_from_days(days as int).1 <= 12,
        1 <= civil_from_days(days as int).2 <= 31,
{
    let z = days + 719468;
    let era = z / 146097;
    let doe = z - era * 146097;
    assert(0 <= doe < 146097);
    let yoe = (doe - doe / 1460 + doe / 36524 - doe / 146096) / 365;
    let doy = doe - (365 * yoe + yoe / 4 - yoe / 100);
    lemma_day_of_era_year(doe, yoe, doy);
    let mp = (5 * doy + 2) / 153;
    let d = doy - (153 * mp + 2) / 5 + 1;
    lemma_month_and_day(doy, mp, d);
}


/// The number of days from 1970-01-01 to the civil date `y-m-d` (proleptic
/// Gregorian): Howard Hinnant's `days_from_civil`.
pub open spec fn days_from_civil(y: int, m: int, d: int) -> int {
    let y = if m <= 2 {
        y - 1
    } else {
        y
    };
    let era = if y >= 0 {
        y
    } else {
        y - 399
    } / 400;
    let yoe = y - era * 400;
    let doy = (153 * (if m > 2 {
        m - 3
    } else {
        m + 9
    }) + 2) / 5 + d - 1;
    let doe = yoe * 365 + yoe / 4 - yoe / 100 + doy;
    era * 146097 + doe - 719468
}

proof fn lemma_era_of_year(yoe: int, era: int)
    by (nonlinear_arith)
    requires
        0 <= yoe <= 399,
        era >= 0,
    ensures
        (yoe + era * 400) / 400 == era,
        yoe + era * 400 >= 0,
{
}

/// The stamp names the right day: counting the days to the civil date
/// `civil_from_days` gives, from the epoch, comes back to where it started.
pub proof fn lemma_civil_date_round_trip(days: nat)
    ensures
        days_from_civil(civil_from_days(days as int).0, civil_from_days(days as int).1, civil_from_days(days as int).2)
            == days,
{
    let z = days + 719468;
    let era = z / 146097;
    let doe = z - era * 146097;
    assert(0 <= doe < 146097);
    assert(era >= 0);
    let yoe = (doe - doe / 1460 + doe / 36524 - doe / 146096) / 365;
    let doy = doe - (365 * yoe + yoe / 4 - yoe / 100);
    lemma_day_of_era_year(doe, yoe, doy);
    let mp = (5 * doy + 2) / 153;
    let d = doy - (153 * mp + 2) / 5 + 1;
    lemma_month_and_day(doy, mp, d);
    lemma_era_of_year(yoe, era as int);
}

} // verus!
