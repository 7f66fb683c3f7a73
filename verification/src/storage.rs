//! On-disk session storage: directory resolution, filenames, timestamps.

use vstd::prelude::*;
use crate::format::{decimal, push_char, push_decimal, push_zero_padded, zero_padded};
use crate::model::Timestamp;
use std::path::{Path, PathBuf};

verus! {

pub const DEFAULT_SUBDIR: &'static str = "caleb";

pub const FILE_EXTENSION: &'static str = ".md";

#[verifier::external_type_specification]
#[verifier::external_body]
pub struct ExPathBuf(std::path::PathBuf);

#[verifier::external_type_specification]
#[verifier::external_body]
pub struct ExPath(std::path::Path);

#[verifier::external_type_specification]
#[verifier::external_body]
pub struct ExIoError(std::io::Error);

#[derive(Debug, PartialEq, Eq)]
pub enum ResolveError {
    /// Neither `$XDG_DATA_HOME` nor `$HOME` is set.
    NoStorageDir,
}

/// The path `Path::new(base).join(rel)` builds.
pub uninterp spec fn joined_path(base: Seq<char>, rel: Seq<char>) -> PathBuf;

/// `Path::new(base).join(rel)`: `base` with the relative path `rel`
/// appended as further components.
#[verifier::external_body]
fn path_join(base: &str, rel: &str) -> (p: PathBuf)
    ensures
        p == joined_path(base@, rel@),
{
    Path::new(base).join(rel)
}

/// Whether a set environment value counts: an empty one is treated as unset.
pub open spec fn is_set(v: Option<&str>) -> bool {
    v matches Some(s) && s@.len() > 0
}

/// Follows XDG: `$XDG_DATA_HOME/caleb`, else `$HOME/.local/share/caleb`.
/// An empty string counts as unset.
pub fn resolve_storage_dir(xdg: Option<&str>, home: Option<&str>) -> (r: Result<PathBuf, ResolveError>)
    ensures
        is_set(xdg) ==> r == Ok::<PathBuf, ResolveError>(joined_path(xdg->0@, "caleb"@)),
        !is_set(xdg) && is_set(home) ==> r == Ok::<PathBuf, ResolveError>(
            joined_path(home->0@, ".local/share/caleb"@),
        ),
        !is_set(xdg) && !is_set(home) ==> r == Err::<PathBuf, ResolveError>(
            ResolveError::NoStorageDir,
        ),
{
    if let Some(x) = xdg {
        if !x.is_empty() {
            return Ok(path_join(x, DEFAULT_SUBDIR));
        }
    }
    if let Some(h) = home {
        if !h.is_empty() {
            return Ok(path_join(h, ".local/share/caleb"));
        }
    }
    Err(ResolveError::NoStorageDir)
}


/// `YYYY-MM-DD_HH-MM`, zero-padded throughout.
pub open spec fn file_stem(ts: Timestamp) -> Seq<char> {
    zero_padded(ts.year as nat, 4) + seq!['-'] + zero_padded(ts.month as nat, 2) + seq!['-']
        + zero_padded(ts.day as nat, 2) + seq!['_'] + zero_padded(ts.hour as nat, 2) + seq!['-']
        + zero_padded(ts.minute as nat, 2)
}

pub fn format_file_stem(ts: Timestamp) -> (s: String)
    ensures
        s@ == file_stem(ts),
{
    let mut s = String::new();
    push_zero_padded(&mut s, ts.year as u64, 4);
    push_char(&mut s, '-');
    push_zero_padded(&mut s, ts.month as u64, 2);
    push_char(&mut s, '-');
    push_zero_padded(&mut s, ts.day as u64, 2);
    push_char(&mut s, '_');
    push_zero_padded(&mut s, ts.hour as u64, 2);
    push_char(&mut s, '-');
    push_zero_padded(&mut s, ts.minute as u64, 2);
    proof {
        assert(s@ =~= file_stem(ts));
    }
    s
}

/// The `n`th name `unique_filename` tries: `<stem><ext>`, then
/// `<stem>-2<ext>`, `<stem>-3<ext>`, ...
pub open spec fn candidate_name(stem: Seq<char>, ext: Seq<char>, n: nat) -> Seq<char> {
    if n <= 1 {
        stem + ext
    } else {
        stem + seq!['-'] + decimal(n) + ext
    }
}

/// `dir.join(name)`: the path of `name` inside `dir` (`Path::join`).
#[verifier::external_body]
fn join_name(dir: &Path, name: &str) -> PathBuf {
    dir.join(name)
}

/// Whether something is on disk at `p` (`Path::exists`). The answer depends
/// on the disk, so nothing is stated of it.
#[verifier::external_body]
fn exists_on_disk(p: &PathBuf) -> bool {
    p.exists()
}

/// Whether an entry named `name` is on disk in `dir`. The answer is what
/// the disk holds at the moment of the call, so either answer is possible
/// and nothing is stated of it.
fn entry_exists(dir: &Path, name: &str) -> bool {
    let p = join_name(dir, name);
    exists_on_disk(&p)
}

/// An I/O error of kind `Other` carrying `msg` (`io::Error::other`).
#[verifier::external_body]
fn other_io_error(msg: &str) -> std::io::Error {
    std::io::Error::other(msg)
}

fn candidate(stem: &str, ext: &str, n: u32) -> (s: String)
    ensures
        s@ == candidate_name(stem@, ext@, n as nat),
{
    let mut s = stem.to_owned();
    if n > 1 {
        push_char(&mut s, '-');
        push_decimal(&mut s, n as u64);
    }
    s.append(ext);
    proof {
        assert(s@ =~= candidate_name(stem@, ext@, n as nat));
    }
    s
}

/// What the name search does after probing candidate `n`.
#[derive(Debug, Clone, Copy, PartialEq, Eq)]
pub enum Probe {
    /// The candidate is free: use it.
    Take,
    /// The candidate is taken: try this one next.
    Next(u32),
    /// The candidate is taken and no further suffix fits in a `u32`.
    Exhausted,
}

/// The decision after probing candidate `n`: a free name is taken, a taken
/// one moves on to `n + 1`, and the search gives up once `u32::MAX` is taken.
pub fn after_probe(n: u32, taken: bool) -> (p: Probe)
    ensures
        !taken ==> p == Probe::Take,
        taken && n < u32::MAX ==> p == Probe::Next((n + 1) as u32),
        taken && n == u32::MAX ==> p == Probe::Exhausted,
{
    if !taken {
        Probe::Take
    } else if n < u32::MAX {
        Probe::Next(n + 1)
    } else {
        Probe::Exhausted
    }
}

/// Whether candidate `n` of `stem` and `ext` is on disk in `dir`: the probe
/// the name search makes. Like `entry_exists`, its answer is what the disk
/// holds at the moment of the call; the search's contract speaks of the
/// answers it received.
pub fn candidate_taken(dir: &Path, stem: &str, ext: &str, n: u32) -> bool {
    let name = candidate(stem, ext, n);
    entry_exists(dir, name.as_str())
}

/// The probe of candidate `n` answered `taken`.
pub open spec fn probe_answered(dir: &Path, stem: &str, ext: &str, n: u32, taken: bool) -> bool {
    call_ensures(candidate_taken, (dir, stem, ext, n), taken)
}

/// `name` is the first candidate the probes reported free: candidate `n`,
/// whose probe answered free, after every earlier one answered taken.
pub open spec fn first_free_name(dir: &Path, stem: &str, ext: &str, name: Seq<char>) -> bool {
    exists|n: u32|
        #![trigger probe_answered(dir, stem, ext, n, false)]
        {
            &&& 1 <= n
            &&& name == candidate_name(stem@, ext@, n as nat)
            &&& probe_answered(dir, stem, ext, n, false)
            &&& forall|m: u32| 1 <= m < n ==> #[trigger] probe_answered(dir, stem, ext, m, true)
        }
}

/// Every candidate, up to the last suffix a `u32` spells, was reported taken.
pub open spec fn every_candidate_taken(dir: &Path, stem: &str, ext: &str) -> bool {
    forall|m: u32| 1 <= m ==> #[trigger] probe_answered(dir, stem, ext, m, true)
}

/// Find a name in `dir` that does not collide: `<stem><ext>`, then
/// `<stem>-2<ext>`, `<stem>-3<ext>`, and so on, probing each in turn and
/// taking the first that is not on disk. Should every suffix a `u32` can
/// spell be taken, the search ends with an error.
pub fn unique_filename(dir: &Path, stem: &str, ext: &str) -> (r: std::io::Result<String>)
    ensures
        match r {
            Ok(name) => first_free_name(dir, stem, ext, name@),
            Err(_) => every_candidate_taken(dir, stem, ext),
        },
{
    let mut n: u32 = 1;
    loop
        invariant
            1 <= n,
            forall|m: u32| 1 <= m < n ==> #[trigger] probe_answered(dir, stem, ext, m, true),
        decreases u32::MAX - n,
    {
        let taken = candidate_taken(dir, stem, ext, n);
        match after_probe(n, taken) {
            Probe::Take => {
                let name = candidate(stem, ext, n);
                assert(probe_answered(dir, stem, ext, n, false));
                return Ok(name);
            },
            Probe::Next(next) => {
                n = next;
            },
            Probe::Exhausted => {
                assert forall|m: u32| 1 <= m implies #[trigger] probe_answered(dir, stem, ext, m, true) by {
                    if m < n {
                    }
                }
                return Err(other_io_error("every collision suffix is taken"));
            },
        }
    }
}

/// Civil (wall-clock) date and time fields, as jiff reports them.
#[derive(Debug, Clone, Copy, PartialEq, Eq)]
pub struct CivilTime {
    pub year: i16,
    pub month: i8,
    pub day: i8,
    pub hour: i8,
    pub minute: i8,
}

/// The ranges jiff guarantees for the fields of a civil datetime.
pub open spec fn civil_in_range(c: CivilTime) -> bool {
    &&& -9999 <= c.year <= 9999
    &&& 1 <= c.month <= 12
    &&& 1 <= c.day <= 31
    &&& 0 <= c.hour <= 23
    &&& 0 <= c.minute <= 59
}

/// The UTC wall-clock fields of the instant `second` seconds after the Unix
/// epoch, as jiff computes them.
pub uninterp spec fn utc_civil(second: i64) -> CivilTime;

/// The latest second jiff's `Timestamp::from_second` accepts.
pub const MAX_UNIX_SECOND: i64 = 253402207200;

/// jiff: `Timestamp::from_second(second)` (which succeeds for every second
/// up to `MAX_UNIX_SECOND`), viewed in UTC through `to_zoned(TimeZone::UTC)`
/// and `datetime()`, read field by field. The contract names the result and
/// states the field ranges jiff documents for `DateTime`.
#[verifier::external_body]
fn utc_civil_of_second(second: i64) -> (c: CivilTime)
    requires
        0 <= second <= MAX_UNIX_SECOND,
    ensures
        c == utc_civil(second),
        civil_in_range(c),
{
    let dt = jiff::Timestamp::from_second(second)
        .expect("in-range unix seconds")
        .to_zoned(jiff::tz::TimeZone::UTC)
        .datetime();
    CivilTime { year: dt.year(), month: dt.month(), day: dt.day(), hour: dt.hour(), minute: dt.minute() }
}

/// jiff: `Zoned::try_from(SystemTime::now())` in the system time zone, then
/// `datetime()`, read field by field. jiff refuses a system clock outside its
/// range with an error, which comes back as `None`. The reading depends on
/// the clock, so only the field ranges jiff documents for `DateTime` are
/// stated of it.
#[verifier::external_body]
fn local_civil_now() -> (c: Option<CivilTime>)
    ensures
        c matches Some(c) ==> civil_in_range(c),
{
    match jiff::Zoned::try_from(std::time::SystemTime::now()) {
        Ok(z) => {
            let dt = z.datetime();
            Some(CivilTime { year: dt.year(), month: dt.month(), day: dt.day(), hour: dt.hour(), minute: dt.minute() })
        },
        Err(_) => None,
    }
}

/// The timestamp of civil fields; each field is cast to the timestamp's
/// width.
pub open spec fn spec_from_civil(c: CivilTime) -> Timestamp {
    Timestamp {
        year: c.year as u16,
        month: c.month as u8,
        day: c.day as u8,
        hour: c.hour as u8,
        minute: c.minute as u8,
    }
}

pub fn from_civil(c: CivilTime) -> (t: Timestamp)
    ensures
        t == spec_from_civil(c),
{
    Timestamp {
        year: #[verifier::truncate] (c.year as u16),
        month: #[verifier::truncate] (c.month as u8),
        day: #[verifier::truncate] (c.day as u8),
        hour: #[verifier::truncate] (c.hour as u8),
        minute: #[verifier::truncate] (c.minute as u8),
    }
}

/// Convert UTC Unix seconds into wall-clock fields. Negative input clamps to
/// the epoch, the only sane fallback for a clock behind 1970.
pub fn timestamp_from_unix_seconds(secs: i64) -> (t: Timestamp)
    requires
        secs <= MAX_UNIX_SECOND,
    ensures
        t == spec_from_civil(utc_civil(if secs < 0 { 0 } else { secs })),
        1 <= t.month <= 12,
        1 <= t.day <= 31,
        t.hour <= 23,
        t.minute <= 59,
{
    let secs = if secs < 0 {
        0
    } else {
        secs
    };
    from_civil(utc_civil_of_second(secs))
}

/// The local wall clock, read once: its civil fields, or `None` when the
/// system clock is set outside the range of dates jiff can represent.
pub fn local_clock() -> (c: Option<CivilTime>)
    ensures
        c matches Some(c) ==> civil_in_range(c),
{
    local_civil_now()
}

/// Local wall-clock now, or `None` when the system clock is set outside the
/// range of dates jiff can represent. The timestamp is the clock reading
/// `local_clock` gave, field for field (each field cast to its width).
pub fn timestamp_now() -> (r: Option<Timestamp>)
    ensures
        r is None ==> call_ensures(local_clock, (), None),
        r matches Some(t) ==> exists|c: CivilTime|
            #[trigger] call_ensures(local_clock, (), Some(c)) && {
                &&& t.year == c.year as u16
                &&& t.month == c.month as u8
                &&& t.day == c.day as u8
                &&& t.hour == c.hour as u8
                &&& t.minute == c.minute as u8
            },
        r matches Some(t) ==> {
            &&& 1 <= t.month <= 12
            &&& 1 <= t.day <= 31
            &&& t.hour <= 23
            &&& t.minute <= 59
        },
{
    match local_clock() {
        Some(c) => Some(from_civil(c)),
        None => None,
    }
}

/// Turning a clock reading into a timestamp keeps every field: for a
/// reading in jiff's ranges with a year of the common era, the timestamp's
/// year, month, day, hour and minute are the reading's.
pub proof fn lemma_timestamp_keeps_the_reading(c: CivilTime)
    requires
        civil_in_range(c),
        c.year >= 0,
    ensures
        spec_from_civil(c).year as int == c.year as int,
        spec_from_civil(c).month as int == c.month as int,
        spec_from_civil(c).day as int == c.day as int,
        spec_from_civil(c).hour as int == c.hour as int,
        spec_from_civil(c).minute as int == c.minute as int,
{
}

} // verus!


