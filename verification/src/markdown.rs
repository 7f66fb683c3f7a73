//! Parse and serialize the GitHub-flavored task-list format.
//!
//! Bytes in, typed data out, and back. The format is line based:
//!
//! - `# Session YYYY-MM-DD HH:MM` sets the timestamp; a malformed or
//!   out-of-range header leaves it unset rather than failing.
//! - `## Active` / `## Completed` switch the list later tasks join; tasks
//!   before any heading are active.
//! - `- [ ] text` and `- [x] text` are tasks; text over `MAX_TASK_BYTES`
//!   bytes is an error.
//! - A trailing `\r` is ignored, and every other line is skipped.

use vstd::prelude::*;
use vstd::utf8::*;
use crate::format::{
    zero_padded, lemma_zero_padded_ascii, lemma_parse_zero_padded, lemma_decimal_len_bound,
    decimal, unsigned_digits, is_digit, digits_value, parse_unsigned, pow10, lemma_ascii_bytes};
use crate::model::{MAX_TASK_BYTES, Task, TaskView, Timestamp};
use crate::text::{
    crlf, crlf_chars, lemma_crlf_encode, lemma_crlf_append, lemma_crlf_no_newline, lemma_lines_join, lemma_lines_no_newline, no_cr,
    terminated, lemma_terminated_push, no_newline, all_ascii, lemma_ascii_valid,
    lemma_encode_concat, lemma_lines_terminated,
    lines, line_end, lemma_line_end, lemma_line_end_is, lemma_ascii_boundaries,
    lemma_boundary_before_ascii_or_end,
};

verus! {

broadcast use vstd::utf8::group_utf8_lib;

#[derive(Debug, PartialEq, Eq)]
pub enum ParseError {
    /// A task's text exceeds `MAX_TASK_BYTES` bytes.
    LineTooLong,
}

#[derive(Debug, PartialEq, Eq)]
pub struct Parsed {
    pub timestamp: Option<Timestamp>,
    pub active: Vec<Task>,
    pub completed: Vec<Task>,
}

/// The mathematical value of a parsed file.
#[verifier::ext_equal]
pub struct ParsedView {
    pub timestamp: Option<Timestamp>,
    pub active: Seq<TaskView>,
    pub completed: Seq<TaskView>,
}

/// The views of a list of tasks.
pub open spec fn task_views(ts: Seq<Task>) -> Seq<TaskView> {
    ts.map_values(|t: Task| t@)
}

impl View for Parsed {
    type V = ParsedView;

    open spec fn view(&self) -> ParsedView {
        ParsedView {
            timestamp: self.timestamp,
            active: task_views(self.active@),
            completed: task_views(self.completed@),
        }
    }
}

impl Default for Parsed {
    fn default() -> (p: Parsed)
        ensures
            p@ == empty_parsed(),
    {
        let p = Parsed { timestamp: None, active: Vec::new(), completed: Vec::new() };
        proof {
            assert(p@.active =~= Seq::<TaskView>::empty());
            assert(p@.completed =~= Seq::<TaskView>::empty());
        }
        p
    }
}

/// Which list a task line joins.
#[derive(Debug, Clone, Copy, PartialEq, Eq, Structural)]
pub enum Section {
    /// Above the first heading; tasks here are active.
    Preamble,
    Active,
    Completed,
}

/// What the parser carries from one line to the next.
#[verifier::ext_equal]
pub struct ParseState {
    pub parsed: ParsedView,
    pub section: Section,
}

pub open spec fn empty_parsed() -> ParsedView {
    ParsedView { timestamp: None, active: Seq::empty(), completed: Seq::empty() }
}

pub open spec fn initial_state() -> ParseState {
    ParseState { parsed: empty_parsed(), section: Section::Preamble }
}

pub open spec fn session_prefix() -> Seq<u8> {
    encode_utf8("# Session "@)
}

pub open spec fn bare_header() -> Seq<u8> {
    encode_utf8("# Session"@)
}

pub open spec fn active_heading() -> Seq<u8> {
    encode_utf8("## Active"@)
}

pub open spec fn completed_heading() -> Seq<u8> {
    encode_utf8("## Completed"@)
}

pub open spec fn open_marker() -> Seq<u8> {
    encode_utf8("- [ ] "@)
}

pub open spec fn done_marker() -> Seq<u8> {
    encode_utf8("- [x] "@)
}

/// A line without the one trailing `\r` a CRLF file leaves on it.
pub open spec fn strip_cr(line: Seq<u8>) -> Seq<u8> {
    if line.len() > 0 && line.last() == 13u8 {
        line.drop_last()
    } else {
        line
    }
}

/// The timestamp of a `# Session YYYY-MM-DD HH:MM` line, if it is one and
/// every field is in range.
pub open spec fn header_timestamp(line: Seq<u8>) -> Option<Timestamp> {
    if line.len() == 26 && line.take(10) == session_prefix() {
        let r = line.skip(10);
        if r[4] == 45u8 && r[7] == 45u8 && r[10] == 32u8 && r[13] == 58u8 {
            match (
                parse_unsigned(r.subrange(0, 4)),
                parse_unsigned(r.subrange(5, 7)),
                parse_unsigned(r.subrange(8, 10)),
                parse_unsigned(r.subrange(11, 13)),
                parse_unsigned(r.subrange(14, 16)),
            ) {
                (Some(y), Some(mo), Some(d), Some(h), Some(mi)) => {
                    if 1 <= mo <= 12 && 1 <= d <= 31 && h <= 23 && mi <= 59 {
                        Some(
                            Timestamp {
                                year: y as u16,
                                month: mo as u8,
                                day: d as u8,
                                hour: h as u8,
                                minute: mi as u8,
                            },
                        )
                    } else {
                        None
                    }
                },
                _ => None,
            }
        } else {
            None
        }
    } else {
        None
    }
}

/// The text and checkbox of a `- [ ] text` or `- [x] text` line.
pub open spec fn task_line(line: Seq<u8>) -> Option<(Seq<u8>, bool)> {
    if line.len() >= 6 && line.take(6) == open_marker() {
        Some((line.skip(6), false))
    } else if line.len() >= 6 && line.take(6) == done_marker() {
        Some((line.skip(6), true))
    } else {
        None
    }
}

/// The effect of one raw line on the parser.
pub open spec fn parse_step(st: ParseState, raw: Seq<u8>) -> Result<ParseState, ParseError> {
    let line = strip_cr(raw);
    let p = st.parsed;
    match header_timestamp(line) {
        Some(ts) => Ok(
            ParseState {
                parsed: ParsedView {
                    timestamp: Some(ts),
                    active: p.active,
                    completed: p.completed,
                },
                section: st.section,
            },
        ),
        None => {
            if line == active_heading() {
                Ok(ParseState { parsed: p, section: Section::Active })
            } else if line == completed_heading() {
                Ok(ParseState { parsed: p, section: Section::Completed })
            } else {
                match task_line(line) {
                    Some((text, done)) => {
                        if text.len() > MAX_TASK_BYTES {
                            Err(ParseError::LineTooLong)
                        } else if st.section == Section::Completed {
                            Ok(
                                ParseState {
                                    parsed: ParsedView {
                                        timestamp: p.timestamp,
                                        active: p.active,
                                        completed: p.completed.push(TaskView { text, done }),
                                    },
                                    section: st.section,
                                },
                            )
                        } else {
                            Ok(
                                ParseState {
                                    parsed: ParsedView {
                                        timestamp: p.timestamp,
                                        active: p.active.push(TaskView { text, done }),
                                        completed: p.completed,
                                    },
                                    section: st.section,
                                },
                            )
                        }
                    },
                    None => Ok(st),
                }
            }
        },
    }
}

/// The parser run over a list of lines, starting from `st`.
pub open spec fn parse_fold(ls: Seq<Seq<u8>>, st: ParseState) -> Result<ParseState, ParseError>
    decreases ls.len(),
{
    if ls.len() == 0 {
        Ok(st)
    } else {
        match parse_step(st, ls[0]) {
            Ok(next) => parse_fold(ls.drop_first(), next),
            Err(e) => Err(e),
        }
    }
}

pub open spec fn finish(r: Result<ParseState, ParseError>) -> Result<ParsedView, ParseError> {
    match r {
        Ok(st) => Ok(st.parsed),
        Err(e) => Err(e),
    }
}

/// What a session file means.
pub open spec fn spec_parse(source: Seq<u8>) -> Result<ParsedView, ParseError> {
    finish(parse_fold(lines(source), initial_state()))
}

/// Open and total task counts for a session file.
#[derive(Debug, Clone, Copy, PartialEq, Eq)]
pub struct TaskCounts {
    pub open: u32,
    pub total: u32,
}

/// Open and total task lines among `ls`, wherever they stand.
pub open spec fn task_totals(ls: Seq<Seq<u8>>) -> (nat, nat)
    decreases ls.len(),
{
    if ls.len() == 0 {
        (0, 0)
    } else {
        let rest = task_totals(ls.drop_first());
        match task_line(strip_cr(ls[0])) {
            Some((_, done)) => (
                if done {
                    rest.0
                } else {
                    rest.0 + 1
                },
                rest.1 + 1,
            ),
            None => rest,
        }
    }
}

pub proof fn lemma_marker_bytes()
    ensures
        session_prefix() == seq![35u8, 32, 83, 101, 115, 115, 105, 111, 110, 32],
        active_heading() == seq![35u8, 35, 32, 65, 99, 116, 105, 118, 101],
        completed_heading() == seq![35u8, 35, 32, 67, 111, 109, 112, 108, 101, 116, 101, 100],
        open_marker() == seq![45u8, 32, 91, 32, 93, 32],
        done_marker() == seq![45u8, 32, 91, 120, 93, 32],
        bare_header() == seq![35u8, 32, 83, 101, 115, 115, 105, 111, 110],
{
    reveal_strlit("# Session");
    lemma_ascii_bytes("# Session"@);
    assert(bare_header() =~= seq![35u8, 32, 83, 101, 115, 115, 105, 111, 110]);
    reveal_strlit("# Session ");
    reveal_strlit("## Active");
    reveal_strlit("## Completed");
    reveal_strlit("- [ ] ");
    reveal_strlit("- [x] ");
    lemma_ascii_bytes("# Session "@);
    lemma_ascii_bytes("## Active"@);
    lemma_ascii_bytes("## Completed"@);
    lemma_ascii_bytes("- [ ] "@);
    lemma_ascii_bytes("- [x] "@);
    assert(session_prefix() =~= seq![35u8, 32, 83, 101, 115, 115, 105, 111, 110, 32]);
    assert(active_heading() =~= seq![35u8, 35, 32, 65, 99, 116, 105, 118, 101]);
    assert(completed_heading() =~= seq![35u8, 35, 32, 67, 111, 109, 112, 108, 101, 116, 101, 100]);
    assert(open_marker() =~= seq![45u8, 32, 91, 32, 93, 32]);
    assert(done_marker() =~= seq![45u8, 32, 91, 120, 93, 32]);
}

/// Whether `line` is exactly `pat`.
fn bytes_eq(line: &[u8], pat: &[u8]) -> (r: bool)
    ensures
        r == (line@ == pat@),
{
    if line.len() != pat.len() {
        return false;
    }
    let mut i: usize = 0;
    while i < line.len()
        invariant
            line@.len() == pat@.len(),
            i <= line@.len(),
            forall|k: int| 0 <= k < i ==> line@[k] == pat@[k],
        decreases line@.len() - i,
    {
        if line[i] != pat[i] {
            return false;
        }
        i += 1;
    }
    proof {
        assert(line@ =~= pat@);
    }
    true
}

/// The value of a fixed-width numeric header field.
fn parse_field(f: &[u8]) -> (r: Option<u16>)
    requires
        f@.len() <= 4,
    ensures
        match parse_unsigned(f@) {
            Some(v) => v < 10000 && r == Some(v as u16),
            None => r is None,
        },
{
    let mut start: usize = 0;
    if f.len() > 0 && f[0] == 43u8 {
        start = 1;
    }
    let ghost d = unsigned_digits(f@);
    assert(d =~= f@.skip(start as int));
    if start >= f.len() {
        assert(d.len() == 0);
        assert(parse_unsigned(f@) is None);
        return None;
    }
    let mut value: u16 = 0;
    let mut i = start;
    while i < f.len()
        invariant
            start <= i <= f@.len() <= 4,
            start <= 1,
            d =~= f@.skip(start as int),
            d == unsigned_digits(f@),
            forall|k: int| start <= k < i ==> is_digit(#[trigger] f@[k]),
            value == digits_value(f@.subrange(start as int, i as int)),
            value < pow10((i - start) as nat),
        decreases f@.len() - i,
    {
        let c = f[i];
        if c < 48u8 || c > 57u8 {
            proof {
                assert(d[i - start] == c);
                assert(!is_digit(d[i - start]));
                assert(parse_unsigned(f@) is None);
            }
            return None;
        }
        proof {
            let s0 = f@.subrange(start as int, i as int);
            let s1 = f@.subrange(start as int, i + 1);
            assert(s1.drop_last() =~= s0);
            assert(s1.last() == c);
            assert(pow10((i + 1 - start) as nat) == 10 * pow10((i - start) as nat));
            assert(pow10(4) == 10000) by {
                reveal_with_fuel(pow10, 5);
            }
            assert(pow10((i + 1 - start) as nat) <= 10000) by {
                if i + 1 - start == 1 {
                    assert(pow10(1) == 10);
                } else if i + 1 - start == 2 {
                    assert(pow10(2) == 100) by { reveal_with_fuel(pow10, 3); }
                } else if i + 1 - start == 3 {
                    assert(pow10(3) == 1000) by { reveal_with_fuel(pow10, 4); }
                }
            }
        }
        value = value * 10 + (c - 48u8) as u16;
        i += 1;
    }
    proof {
        assert(f@.subrange(start as int, f@.len() as int) =~= d);
        assert(pow10(4) == 10000) by {
            reveal_with_fuel(pow10, 5);
        }
        if f@.len() - start < 4 {
            assert(pow10(3) == 1000) by { reveal_with_fuel(pow10, 4); }
            assert(pow10(2) == 100) by { reveal_with_fuel(pow10, 3); }
            assert(pow10(1) == 10) by { reveal_with_fuel(pow10, 2); }
        }
        assert forall|k: int| 0 <= k < d.len() implies is_digit(#[trigger] d[k]) by {
            assert(d[k] == f@[k + start]);
        }
    }
    Some(value)
}

/// Expected exact shape: `# Session YYYY-MM-DD HH:MM`. A bad header is not
/// an error; it just means "no timestamp".
fn parse_header(line: &[u8]) -> (r: Option<Timestamp>)
    ensures
        r == header_timestamp(line@),
{
    proof {
        lemma_marker_bytes();
    }
    if line.len() != 26 {
        return None;
    }
    let prefix: [u8; 10] = [35u8, 32, 83, 101, 115, 115, 105, 111, 110, 32];
    if !bytes_eq(&line[0..10], prefix.as_slice()) {
        proof {
            assert(line@.subrange(0, 10) =~= line@.take(10));
        }
        return None;
    }
    proof {
        assert(line@.subrange(0, 10) =~= line@.take(10));
    }
    let ghost r = line@.skip(10);
    if line[14] != 45u8 || line[17] != 45u8 || line[20] != 32u8 || line[23] != 58u8 {
        proof {
            assert(r[4] == line@[14] && r[7] == line@[17] && r[10] == line@[20] && r[13]
                == line@[23]);
        }
        return None;
    }
    proof {
        assert(r[4] == line@[14] && r[7] == line@[17] && r[10] == line@[20] && r[13] == line@[23]);
        assert(line@.subrange(10, 14) =~= r.subrange(0, 4));
        assert(line@.subrange(15, 17) =~= r.subrange(5, 7));
        assert(line@.subrange(18, 20) =~= r.subrange(8, 10));
        assert(line@.subrange(21, 23) =~= r.subrange(11, 13));
        assert(line@.subrange(24, 26) =~= r.subrange(14, 16));
    }
    let year = parse_field(&line[10..14]);
    let month = parse_field(&line[15..17]);
    let day = parse_field(&line[18..20]);
    let hour = parse_field(&line[21..23]);
    let minute = parse_field(&line[24..26]);
    match (year, month, day, hour, minute) {
        (Some(y), Some(mo), Some(d), Some(h), Some(mi)) => {
            if 1 <= mo && mo <= 12 && 1 <= d && d <= 31 && h <= 23 && mi <= 59 {
                Some(
                    Timestamp {
                        year: y,
                        month: mo as u8,
                        day: d as u8,
                        hour: h as u8,
                        minute: mi as u8,
                    },
                )
            } else {
                None
            }
        },
        _ => None,
    }
}

/// The checkbox of a task line, if `line` is one; its text follows the
/// six-byte marker.
fn parse_task_line(line: &[u8]) -> (r: Option<bool>)
    ensures
        match task_line(line@) {
            Some((text, done)) => r == Some(done) && text == line@.skip(6),
            None => r is None,
        },
{
    proof {
        lemma_marker_bytes();
    }
    if line.len() < 6 {
        return None;
    }
    proof {
        assert(line@.subrange(0, 6) =~= line@.take(6));
    }
    let open: [u8; 6] = [45u8, 32, 91, 32, 93, 32];
    let done: [u8; 6] = [45u8, 32, 91, 120, 93, 32];
    if bytes_eq(&line[0..6], open.as_slice()) {
        return Some(false);
    }
    if bytes_eq(&line[0..6], done.as_slice()) {
        return Some(true);
    }
    None
}

/// End of the line starting at `pos`: the index of the next `\n`, or the
/// buffer's length.
fn find_line_end(b: &[u8], pos: usize) -> (e: usize)
    requires
        pos <= b@.len(),
    ensures
        pos <= e <= b@.len(),
        line_end(b@.skip(pos as int)) == e - pos,
        e == b@.len() || b@[e as int] == 10u8,
{
    let mut e = pos;
    while e < b.len() && b[e] != 10u8
        invariant
            pos <= e <= b@.len(),
            forall|k: int| pos <= k < e ==> b@[k] != 10u8,
        decreases b@.len() - e,
    {
        e += 1;
    }
    proof {
        let rest = b@.skip(pos as int);
        assert forall|k: int| 0 <= k < e - pos implies rest[k] != 10u8 by {
            assert(rest[k] == b@[k + pos]);
        }
        if e < b@.len() {
            assert(rest[e - pos] == b@[e as int]);
        }
        lemma_line_end_is(rest, e - pos);
    }
    e
}

/// End of the line `[pos, e)` without its trailing `\r`.
fn strip_cr_end(b: &[u8], pos: usize, e: usize) -> (l: usize)
    requires
        pos <= e <= b@.len(),
    ensures
        pos <= l <= e,
        b@.subrange(pos as int, l as int) == strip_cr(b@.subrange(pos as int, e as int)),
        l == e || b@[l as int] == 13u8,
{
    if e > pos && b[e - 1] == 13u8 {
        proof {
            assert(b@.subrange(pos as int, e - 1) =~= b@.subrange(pos as int, e as int).drop_last());
        }
        e - 1
    } else {
        e
    }
}

/// Apply one line, `[pos, e)` of `source`, to the parser.
fn parse_line(
    source: &str,
    b: &[u8],
    pos: usize,
    e: usize,
    result: &mut Parsed,
    section: &mut Section,
) -> (r: Result<(), ParseError>)
    requires
        b@ == encode_utf8(source@),
        pos <= e <= b@.len(),
        e == b@.len() || b@[e as int] == 10u8,
    ensures
        match parse_step(
            ParseState { parsed: old(result)@, section: *old(section) },
            b@.subrange(pos as int, e as int),
        ) {
            Ok(st) => r is Ok && final(result)@ == st.parsed && *final(section) == st.section,
            Err(err) => r == Err::<(), ParseError>(err),
        },
{
    proof {
        lemma_marker_bytes();
    }
    let l = strip_cr_end(b, pos, e);
    let line = &b[pos..l];
    let ghost st = ParseState { parsed: old(result)@, section: *old(section) };
    assert(line@ == strip_cr(b@.subrange(pos as int, e as int)));
    if let Some(ts) = parse_header(line) {
        result.timestamp = Some(ts);
        return Ok(());
    }
    let active: [u8; 9] = [35u8, 35, 32, 65, 99, 116, 105, 118, 101];
    if bytes_eq(line, active.as_slice()) {
        *section = Section::Active;
        return Ok(());
    }
    let completed: [u8; 12] = [35u8, 35, 32, 67, 111, 109, 112, 108, 101, 116, 101, 100];
    if bytes_eq(line, completed.as_slice()) {
        *section = Section::Completed;
        return Ok(());
    }
    match parse_task_line(line) {
        Some(done) => {
            if l - (pos + 6) > MAX_TASK_BYTES {
                return Err(ParseError::LineTooLong);
            }
            let ghost bytes = b@;
            proof {
                encode_utf8_valid_utf8(source@);
                lemma_boundary_before_ascii_or_end(bytes, l as int);
            }
            let (head, _) = source.split_at(l);
            proof {
                let h = encode_utf8(head@);
                assert(h =~= bytes.subrange(0, l as int));
                encode_utf8_valid_utf8(head@);
                assert(h[pos + 5] == 32u8);
                lemma_ascii_boundaries(h, pos + 5);
            }
            let (_, text) = head.split_at(pos + 6);
            let text = text.to_owned();
            let task = Task { text, done };
            proof {
                assert(task@.text =~= line@.skip(6));
            }
            if *section == Section::Completed {
                result.completed.push(task);
                proof {
                    assert(task_views(result.completed@) =~= task_views(old(result).completed@).push(task@));
                }
            } else {
                result.active.push(task);
                proof {
                    assert(task_views(result.active@) =~= task_views(old(result).active@).push(task@));
                }
            }
            Ok(())
        },
        None => Ok(()),
    }
}

/// Parsing the buffer from `pos` on is the line `[pos, e)` and then the
/// buffer after its newline.
proof fn lemma_fold_first_line(b: Seq<u8>, pos: int, e: int, st: ParseState)
    requires
        0 <= pos <= e <= b.len(),
        line_end(b.skip(pos)) == e - pos,
    ensures
        e < b.len() ==> parse_fold(lines(b.skip(pos)), st) == match parse_step(
            st,
            b.subrange(pos, e),
        ) {
            Ok(next) => parse_fold(lines(b.skip(e + 1)), next),
            Err(err) => Err(err),
        },
        e == b.len() ==> parse_fold(lines(b.skip(pos)), st) == match parse_step(
            st,
            b.subrange(pos, e),
        ) {
            Ok(next) => Ok(next),
            Err(err) => Err(err),
        },
        e < b.len() ==> task_totals(lines(b.skip(pos))) == {
            let r = task_totals(lines(b.skip(e + 1)));
            match task_line(strip_cr(b.subrange(pos, e))) {
                Some((_, done)) => (if done { r.0 } else { r.0 + 1 }, r.1 + 1),
                None => r,
            }
        },
        e == b.len() ==> task_totals(lines(b.skip(pos))) == match task_line(
            strip_cr(b.subrange(pos, e)),
        ) {
            Some((_, done)) => (if done { 0nat } else { 1nat }, 1nat),
            None => (0nat, 0nat),
        },
{
    let rest = b.skip(pos);
    lemma_line_end(rest);
    assert(rest.take(e - pos) =~= b.subrange(pos, e));
    let ls = lines(rest);
    if e < b.len() {
        assert(rest.skip(e - pos + 1) =~= b.skip(e + 1));
        assert(ls == seq![rest.take(e - pos)] + lines(b.skip(e + 1)));
        assert(ls[0] == b.subrange(pos, e));
        assert(ls.drop_first() =~= lines(b.skip(e + 1)));
    } else {
        assert(rest =~= b.subrange(pos, e));
        assert(ls == seq![rest]);
        assert(ls.drop_first() =~= Seq::<Seq<u8>>::empty());
        assert(task_totals(Seq::<Seq<u8>>::empty()) == (0nat, 0nat));
        match parse_step(st, ls[0]) {
            Ok(next) => {
                assert(parse_fold(ls.drop_first(), next) == Ok::<ParseState, ParseError>(next));
            },
            Err(_) => {},
        }
    }
}

/// Read a session file. Every line is applied in order; the first task
/// over the byte cap stops the parse with an error.
pub fn parse(source: &str) -> (r: Result<Parsed, ParseError>)
    ensures
        match r {
            Ok(p) => spec_parse(encode_utf8(source@)) == Ok::<ParsedView, ParseError>(p@),
            Err(e) => spec_parse(encode_utf8(source@)) == Err::<ParsedView, ParseError>(e),
        },
{
    let b = source.as_bytes();
    let mut result = Parsed::default();
    let mut section = Section::Preamble;
    let mut pos: usize = 0;
    assert(b@.skip(0) =~= b@);
    loop
        invariant
            b@ == encode_utf8(source@),
            pos <= b@.len(),
            finish(parse_fold(lines(b@.skip(pos as int)), ParseState { parsed: result@, section }))
                == spec_parse(b@),
        decreases b@.len() - pos,
    {
        let e = find_line_end(b, pos);
        proof {
            lemma_fold_first_line(b@, pos as int, e as int, ParseState { parsed: result@, section });
        }
        let step = parse_line(source, b, pos, e, &mut result, &mut section);
        if step.is_err() {
            return Err(ParseError::LineTooLong);
        }
        if e == b.len() {
            return Ok(result);
        }
        pos = e + 1;
    }
}

/// Count tasks without fully parsing, for the resume picker's summary
/// column. More tolerant than [`parse`]: an over-long task still counts, so
/// a session never vanishes from the picker just because it cannot be
/// opened.
pub fn count_tasks(source: &str) -> (c: TaskCounts)
    requires
        task_totals(lines(encode_utf8(source@))).1 <= u32::MAX,
    ensures
        c.open == task_totals(lines(encode_utf8(source@))).0,
        c.total == task_totals(lines(encode_utf8(source@))).1,
{
    let b = source.as_bytes();
    let mut counts = TaskCounts { open: 0, total: 0 };
    let mut pos: usize = 0;
    let ghost all = task_totals(lines(b@));
    assert(b@.skip(0) =~= b@);
    proof {
        lemma_task_totals_bound(lines(b@));
    }
    loop
        invariant
            b@ == encode_utf8(source@),
            pos <= b@.len(),
            all == task_totals(lines(b@)),
            all.1 <= u32::MAX,
            all.0 <= all.1,
            counts.open + task_totals(lines(b@.skip(pos as int))).0 == all.0,
            counts.total + task_totals(lines(b@.skip(pos as int))).1 == all.1,
        decreases b@.len() - pos,
    {
        let e = find_line_end(b, pos);
        proof {
            lemma_fold_first_line(b@, pos as int, e as int, initial_state());
            if e < b@.len() {
                lemma_task_totals_bound(lines(b@.skip(e + 1)));
            }
        }
        let l = strip_cr_end(b, pos, e);
        if let Some(done) = parse_task_line(&b[pos..l]) {
            counts.total += 1;
            if !done {
                counts.open += 1;
            }
        }
        if e == b.len() {
            return counts;
        }
        pos = e + 1;
    }
}

pub proof fn lemma_task_totals_bound(ls: Seq<Seq<u8>>)
    ensures
        task_totals(ls).0 <= task_totals(ls).1,
    decreases ls.len(),
{
    if ls.len() > 0 {
        lemma_task_totals_bound(ls.drop_first());
    }
}


/// The first line of a session file.
pub open spec fn header_line(ts: Option<Timestamp>) -> Seq<u8> {
    match ts {
        Some(t) => session_prefix() + encode_utf8(t.header_chars()),
        None => bare_header(),
    }
}

/// One line per task: the marker, then the task's text.
pub open spec fn task_lines(ts: Seq<TaskView>, marker: Seq<u8>) -> Seq<Seq<u8>> {
    Seq::new(ts.len(), |i: int| marker + ts[i].text)
}

/// The lines of a canonical session file: the header, a blank line, the
/// active heading and a blank line, the open tasks, then a blank line, the
/// completed heading, a blank line and the done tasks.
pub open spec fn file_lines(
    ts: Option<Timestamp>,
    active: Seq<TaskView>,
    completed: Seq<TaskView>,
) -> Seq<Seq<u8>> {
    seq![header_line(ts), Seq::<u8>::empty(), active_heading(), Seq::<u8>::empty()] + task_lines(
        active,
        open_marker(),
    ) + seq![Seq::<u8>::empty(), completed_heading(), Seq::<u8>::empty()] + task_lines(
        completed,
        done_marker(),
    )
}

/// The canonical file: every line of [`file_lines`] followed by a newline.
pub open spec fn spec_serialize(
    ts: Option<Timestamp>,
    active: Seq<TaskView>,
    completed: Seq<TaskView>,
) -> Seq<u8> {
    terminated(file_lines(ts, active, completed))
}

/// Turns UTF-8 bytes into a `String` (`String::from_utf8`, its error dropped).
#[verifier::external_body]
fn string_from_utf8(bytes: Vec<u8>) -> (r: Option<String>)
    ensures
        r is Some <==> valid_utf8(bytes@),
        r matches Some(s) ==> encode_utf8(s@) == bytes@,
{
    String::from_utf8(bytes).ok()
}

fn push_bytes(out: &mut Vec<u8>, bytes: &[u8])
    ensures
        final(out)@ == old(out)@ + bytes@,
{
    out.extend_from_slice(bytes);
}

/// Appends `line` and a newline, recording it in `ls`.
fn push_line(out: &mut Vec<u8>, line: &[u8], Ghost(ls): Ghost<Seq<Seq<u8>>>)
    requires
        old(out)@ == terminated(ls),
    ensures
        final(out)@ == terminated(ls.push(line@)),
{
    out.extend_from_slice(line);
    out.push(10u8);
    proof {
        lemma_terminated_push(ls, line@);
    }
}

proof fn lemma_terminated_valid(ls: Seq<Seq<u8>>)
    requires
        forall|i: int| 0 <= i < ls.len() ==> valid_utf8(#[trigger] ls[i]),
    ensures
        valid_utf8(terminated(ls)),
    decreases ls.len(),
{
    if ls.len() > 0 {
        let rest = ls.drop_first();
        assert forall|i: int| 0 <= i < rest.len() implies valid_utf8(#[trigger] rest[i]) by {
            assert(rest[i] == ls[i + 1]);
        }
        lemma_terminated_valid(rest);
        assert(valid_utf8(ls[0]));
        lemma_ascii_valid(seq![10u8]);
        valid_utf8_concat(ls[0], seq![10u8]);
        valid_utf8_concat(ls[0] + seq![10u8], terminated(rest));
    }
}


proof fn lemma_file_lines_valid(ts: Option<Timestamp>, active: Seq<TaskView>, completed: Seq<TaskView>)
    requires
        forall|i: int| 0 <= i < active.len() ==> valid_utf8(#[trigger] active[i].text),
        forall|i: int| 0 <= i < completed.len() ==> valid_utf8(#[trigger] completed[i].text),
    ensures
        valid_utf8(spec_serialize(ts, active, completed)),
{
    lemma_marker_bytes();
    let ls = file_lines(ts, active, completed);
    lemma_ascii_valid(Seq::<u8>::empty());
    lemma_ascii_valid(active_heading());
    lemma_ascii_valid(completed_heading());
    lemma_ascii_valid(open_marker());
    lemma_ascii_valid(done_marker());
    lemma_ascii_valid(session_prefix());
    lemma_ascii_valid(bare_header());
    match ts {
        Some(t) => {
            encode_utf8_valid_utf8(t.header_chars());
            valid_utf8_concat(session_prefix(), encode_utf8(t.header_chars()));
        },
        None => {},
    }
    let n = active.len() as int;
    assert forall|i: int| 0 <= i < ls.len() implies valid_utf8(#[trigger] ls[i]) by {
        if 4 <= i < 4 + n {
            assert(ls[i] == open_marker() + active[i - 4].text);
            valid_utf8_concat(open_marker(), active[i - 4].text);
        } else if 7 + n <= i {
            assert(ls[i] == done_marker() + completed[i - 7 - n].text);
            valid_utf8_concat(done_marker(), completed[i - 7 - n].text);
        }
    }
    lemma_terminated_valid(ls);
}

fn push_task_lines(
    out: &mut Vec<u8>,
    tasks: &[Task],
    marker: &[u8],
    Ghost(ls): Ghost<Seq<Seq<u8>>>,
)
    requires
        old(out)@ == terminated(ls),
    ensures
        final(out)@ == terminated(ls + task_lines(task_views(tasks@), marker@)),
{
    let ghost views = task_views(tasks@);
    let mut i: usize = 0;
    while i < tasks.len()
        invariant
            i <= tasks@.len(),
            views == task_views(tasks@),
            out@ == terminated(ls + task_lines(views.take(i as int), marker@)),
        decreases tasks@.len() - i,
    {
        let ghost before = ls + task_lines(views.take(i as int), marker@);
        let text = tasks[i].text.as_str().as_bytes();
        push_bytes(out, marker);
        push_bytes(out, text);
        out.push(10u8);
        proof {
            let line = marker@ + views[i as int].text;
            assert(out@ =~= terminated(before) + line + seq![10u8]);
            lemma_terminated_push(before, line);
            assert(task_lines(views.take(i + 1), marker@) =~= task_lines(views.take(i as int), marker@).push(line));
            assert(before.push(line) =~= ls + task_lines(views.take(i + 1), marker@));
        }
        i += 1;
    }
    proof {
        assert(views.take(tasks@.len() as int) =~= views);
    }
}

/// Write a session in the canonical, byte-stable form.
pub fn serialize(timestamp: Option<Timestamp>, active: &[Task], completed: &[Task]) -> (out: String)
    ensures
        encode_utf8(out@) == spec_serialize(timestamp, task_views(active@), task_views(completed@)),
{
    proof {
        lemma_marker_bytes();
    }
    let mut out: Vec<u8> = Vec::new();
    let ghost ls: Seq<Seq<u8>> = Seq::empty();
    assert(out@ =~= terminated(ls));
    match timestamp {
        Some(ts) => {
            let prefix: [u8; 10] = [35u8, 32, 83, 101, 115, 115, 105, 111, 110, 32];
            let text = ts.to_string();
            push_bytes(&mut out, prefix.as_slice());
            push_bytes(&mut out, text.as_str().as_bytes());
            out.push(10u8);
            proof {
                lemma_terminated_push(ls, header_line(timestamp));
                assert(out@ =~= terminated(ls.push(header_line(timestamp))));
            }
        },
        None => {
            let bare: [u8; 9] = [35u8, 32, 83, 101, 115, 115, 105, 111, 110];
            push_line(&mut out, bare.as_slice(), Ghost(ls));
        },
    }
    proof {
        ls = ls.push(header_line(timestamp));
    }
    let empty: [u8; 0] = [];
    push_line(&mut out, empty.as_slice(), Ghost(ls));
    proof {
        assert(empty@ =~= Seq::<u8>::empty());
        ls = ls.push(Seq::<u8>::empty());
    }
    let active_heading: [u8; 9] = [35u8, 35, 32, 65, 99, 116, 105, 118, 101];
    push_line(&mut out, active_heading.as_slice(), Ghost(ls));
    proof {
        ls = ls.push(active_heading@);
    }
    push_line(&mut out, empty.as_slice(), Ghost(ls));
    proof {
        ls = ls.push(Seq::<u8>::empty());
    }
    let open: [u8; 6] = [45u8, 32, 91, 32, 93, 32];
    push_task_lines(&mut out, active, open.as_slice(), Ghost(ls));
    proof {
        ls = ls + task_lines(task_views(active@), open@);
    }
    push_line(&mut out, empty.as_slice(), Ghost(ls));
    proof {
        ls = ls.push(Seq::<u8>::empty());
    }
    let completed_heading: [u8; 12] = [35u8, 35, 32, 67, 111, 109, 112, 108, 101, 116, 101, 100];
    push_line(&mut out, completed_heading.as_slice(), Ghost(ls));
    proof {
        ls = ls.push(completed_heading@);
    }
    push_line(&mut out, empty.as_slice(), Ghost(ls));
    proof {
        ls = ls.push(Seq::<u8>::empty());
    }
    let done: [u8; 6] = [45u8, 32, 91, 120, 93, 32];
    push_task_lines(&mut out, completed, done.as_slice(), Ghost(ls));
    proof {
        ls = ls + task_lines(task_views(completed@), done@);
        assert(ls =~= file_lines(timestamp, task_views(active@), task_views(completed@)));
        let va = task_views(active@);
        let vc = task_views(completed@);
        assert forall|i: int| 0 <= i < va.len() implies valid_utf8(#[trigger] va[i].text) by {
            encode_utf8_valid_utf8(active@[i].text@);
        }
        assert forall|i: int| 0 <= i < vc.len() implies valid_utf8(#[trigger] vc[i].text) by {
            encode_utf8_valid_utf8(completed@[i].text@);
        }
        lemma_file_lines_valid(timestamp, va, vc);
    }
    match string_from_utf8(out) {
        Some(s) => s,
        None => {
            proof {
                assert(false);
            }
            String::new()
        },
    }
}


/// A task text that survives a write and a read unchanged: within the byte
/// cap, on one line, and not ending in the `\r` a read would strip.
pub open spec fn round_trips(text: Seq<u8>) -> bool {
    &&& text.len() <= MAX_TASK_BYTES
    &&& no_newline(text)
    &&& !(text.len() > 0 && text.last() == 13u8)
}

/// `ts` with every `done` flag set to `done`.
pub open spec fn with_done(ts: Seq<TaskView>, done: bool) -> Seq<TaskView> {
    Seq::new(ts.len(), |i: int| TaskView { text: ts[i].text, done })
}

pub open spec fn marker(done: bool) -> Seq<u8> {
    if done {
        done_marker()
    } else {
        open_marker()
    }
}

/// Folding over two runs of lines is folding over the first, then the second.
pub proof fn lemma_fold_append(x: Seq<Seq<u8>>, y: Seq<Seq<u8>>, st: ParseState)
    ensures
        parse_fold(x + y, st) == match parse_fold(x, st) {
            Ok(mid) => parse_fold(y, mid),
            Err(e) => Err(e),
        },
    decreases x.len(),
{
    if x.len() == 0 {
        assert(x + y =~= y);
    } else {
        assert((x + y)[0] == x[0]);
        assert((x + y).drop_first() =~= x.drop_first() + y);
        match parse_step(st, x[0]) {
            Ok(next) => lemma_fold_append(x.drop_first(), y, next),
            Err(_) => {},
        }
    }
}

proof fn lemma_blank_step(st: ParseState)
    ensures
        parse_step(st, Seq::<u8>::empty()) == Ok::<ParseState, ParseError>(st),
{
    lemma_marker_bytes();
    let e = Seq::<u8>::empty();
    assert(strip_cr(e) == e);
    assert(e != active_heading());
    assert(e != completed_heading());
}

proof fn lemma_heading_steps(st: ParseState)
    ensures
        parse_step(st, active_heading()) == Ok::<ParseState, ParseError>(
            ParseState { parsed: st.parsed, section: Section::Active },
        ),
        parse_step(st, completed_heading()) == Ok::<ParseState, ParseError>(
            ParseState { parsed: st.parsed, section: Section::Completed },
        ),
{
    lemma_marker_bytes();
    assert(strip_cr(active_heading()) == active_heading());
    assert(strip_cr(completed_heading()) == completed_heading());
    assert(completed_heading() != active_heading());
}

/// Bytes of the rendered header timestamp, field by field.
proof fn lemma_header_chars(t: Timestamp)
    requires
        t.in_header_range(),
    ensures
        encode_utf8(t.header_chars()).len() == 16,
        all_ascii(encode_utf8(t.header_chars())),
        no_newline(encode_utf8(t.header_chars())),
        ({
            let r = encode_utf8(t.header_chars());
            &&& r[4] == 45u8 && r[7] == 45u8 && r[10] == 32u8 && r[13] == 58u8
            &&& r.subrange(0, 4) == encode_utf8(zero_padded(t.year as nat, 4))
            &&& r.subrange(5, 7) == encode_utf8(zero_padded(t.month as nat, 2))
            &&& r.subrange(8, 10) == encode_utf8(zero_padded(t.day as nat, 2))
            &&& r.subrange(11, 13) == encode_utf8(zero_padded(t.hour as nat, 2))
            &&& r.subrange(14, 16) == encode_utf8(zero_padded(t.minute as nat, 2))
            &&& 48u8 <= r[15] <= 57u8
        }),
{
    assert(pow10(4) == 10000) by {
        reveal_with_fuel(pow10, 5);
    }
    assert(pow10(2) == 100) by {
        reveal_with_fuel(pow10, 3);
    }
    lemma_decimal_len_bound(t.year as nat, 4);
    lemma_decimal_len_bound(t.month as nat, 2);
    lemma_decimal_len_bound(t.day as nat, 2);
    lemma_decimal_len_bound(t.hour as nat, 2);
    lemma_decimal_len_bound(t.minute as nat, 2);
    let y = zero_padded(t.year as nat, 4);
    let mo = zero_padded(t.month as nat, 2);
    let d = zero_padded(t.day as nat, 2);
    let h = zero_padded(t.hour as nat, 2);
    let mi = zero_padded(t.minute as nat, 2);
    lemma_zero_padded_ascii(t.year as nat, 4);
    lemma_zero_padded_ascii(t.month as nat, 2);
    lemma_zero_padded_ascii(t.day as nat, 2);
    lemma_zero_padded_ascii(t.hour as nat, 2);
    lemma_zero_padded_ascii(t.minute as nat, 2);
    let hc = t.header_chars();
    assert(hc.len() == 16);
    assert(hc =~= y + seq!['-'] + mo + seq!['-'] + d + seq![' '] + h + seq![':'] + mi);
    assert(is_ascii_chars(hc)) by {
        assert forall|k: int| 0 <= k < hc.len() implies '\0' <= #[trigger] hc[k] <= '\u{7f}' by {
            if k < 4 {
                assert(hc[k] == y[k]);
            } else if k == 4 || k == 7 || k == 10 || k == 13 {
            } else if k < 7 {
                assert(hc[k] == mo[k - 5]);
            } else if k < 10 {
                assert(hc[k] == d[k - 8]);
            } else if k < 13 {
                assert(hc[k] == h[k - 11]);
            } else {
                assert(hc[k] == mi[k - 14]);
            }
        }
    }
    let r = encode_utf8(hc);
    lemma_ascii_bytes(hc);
    lemma_ascii_bytes(y);
    lemma_ascii_bytes(mo);
    lemma_ascii_bytes(d);
    lemma_ascii_bytes(h);
    lemma_ascii_bytes(mi);
    assert(r[4] == hc[4] as u8);
    assert(r[7] == hc[7] as u8);
    assert(r[10] == hc[10] as u8);
    assert(r[13] == hc[13] as u8);
    assert(r[15] == hc[15] as u8);
    assert(hc[15] == mi[1]);
    assert(r.subrange(0, 4) =~= encode_utf8(y)) by {
        assert forall|k: int| 0 <= k < 4 implies r.subrange(0, 4)[k] == encode_utf8(y)[k] by {
            assert(r[k] == hc[k] as u8);
            assert(hc[k] == y[k]);
        }
    }
    assert(r.subrange(5, 7) =~= encode_utf8(mo)) by {
        assert forall|k: int| 0 <= k < 2 implies r.subrange(5, 7)[k] == encode_utf8(mo)[k] by {
            assert(r[k + 5] == hc[k + 5] as u8);
            assert(hc[k + 5] == mo[k]);
        }
    }
    assert(r.subrange(8, 10) =~= encode_utf8(d)) by {
        assert forall|k: int| 0 <= k < 2 implies r.subrange(8, 10)[k] == encode_utf8(d)[k] by {
            assert(r[k + 8] == hc[k + 8] as u8);
            assert(hc[k + 8] == d[k]);
        }
    }
    assert(r.subrange(11, 13) =~= encode_utf8(h)) by {
        assert forall|k: int| 0 <= k < 2 implies r.subrange(11, 13)[k] == encode_utf8(h)[k] by {
            assert(r[k + 11] == hc[k + 11] as u8);
            assert(hc[k + 11] == h[k]);
        }
    }
    assert(r.subrange(14, 16) =~= encode_utf8(mi)) by {
        assert forall|k: int| 0 <= k < 2 implies r.subrange(14, 16)[k] == encode_utf8(mi)[k] by {
            assert(r[k + 14] == hc[k + 14] as u8);
            assert(hc[k + 14] == mi[k]);
        }
    }
    assert(all_ascii(r)) by {
        assert forall|k: int| 0 <= k < r.len() implies r[k] < 128u8 by {
            assert(r[k] == hc[k] as u8);
        }
    }
    assert(no_newline(r)) by {
        assert forall|k: int| 0 <= k < r.len() implies r[k] != 10u8 by {
            assert(r[k] == hc[k] as u8);
            if k < 4 {
                assert(hc[k] == y[k]);
            } else if k == 4 || k == 7 || k == 10 || k == 13 {
            } else if k < 7 {
                assert(hc[k] == mo[k - 5]);
            } else if k < 10 {
                assert(hc[k] == d[k - 8]);
            } else if k < 13 {
                assert(hc[k] == h[k - 11]);
            } else {
                assert(hc[k] == mi[k - 14]);
            }
        }
    }
}

/// The header line sets exactly the timestamp it was written from.
proof fn lemma_header_step(st: ParseState, ts: Option<Timestamp>)
    requires
        ts matches Some(t) ==> t.in_header_range(),
    ensures
        parse_step(st, header_line(ts)) == Ok::<ParseState, ParseError>(
            ParseState {
                parsed: ParsedView {
                    timestamp: match ts {
                        Some(t) => Some(t),
                        None => st.parsed.timestamp,
                    },
                    active: st.parsed.active,
                    completed: st.parsed.completed,
                },
                section: st.section,
            },
        ),
{
    lemma_marker_bytes();
    let line = header_line(ts);
    match ts {
        Some(t) => {
            lemma_header_chars(t);
            let r = encode_utf8(t.header_chars());
            assert(line.len() == 26);
            assert(line.last() == r[15]);
            assert(strip_cr(line) == line);
            assert(line.take(10) =~= session_prefix());
            assert(line.skip(10) =~= r);
            lemma_parse_zero_padded(t.year as nat, 4);
            lemma_parse_zero_padded(t.month as nat, 2);
            lemma_parse_zero_padded(t.day as nat, 2);
            lemma_parse_zero_padded(t.hour as nat, 2);
            lemma_parse_zero_padded(t.minute as nat, 2);
            assert(header_timestamp(line) == Some(t));
        },
        None => {
            assert(line == bare_header());
            assert(strip_cr(line) == line);
            assert(line[1] != active_heading()[1]);
            assert(line != active_heading());
            assert(line != completed_heading());
            assert(line.take(6)[0] == 35u8);
            assert(line.take(6) != open_marker());
            assert(line.take(6) != done_marker());
        },
    }
}

/// One task line appends its task, with the checkbox its marker shows.
proof fn lemma_task_step(st: ParseState, t: TaskView, done: bool)
    requires
        round_trips(t.text),
        st.section == (if done {
            Section::Completed
        } else {
            Section::Active
        }),
    ensures
        parse_step(st, marker(done) + t.text) == Ok::<ParseState, ParseError>(
            ParseState {
                parsed: ParsedView {
                    timestamp: st.parsed.timestamp,
                    active: if done {
                        st.parsed.active
                    } else {
                        st.parsed.active.push(TaskView { text: t.text, done: false })
                    },
                    completed: if done {
                        st.parsed.completed.push(TaskView { text: t.text, done: true })
                    } else {
                        st.parsed.completed
                    },
                },
                section: st.section,
            },
        ),
{
    lemma_marker_bytes();
    let line = marker(done) + t.text;
    assert(line[0] == 45u8);
    if t.text.len() > 0 {
        assert(line.last() == t.text.last());
    } else {
        assert(line.last() == 32u8);
    }
    assert(strip_cr(line) == line);
    if line.len() == 26 {
        assert(line.take(10)[0] != session_prefix()[0]);
    }
    assert(header_timestamp(line) is None);
    assert(line[0] != active_heading()[0]);
    assert(line[0] != completed_heading()[0]);
    assert(line.take(6) =~= marker(done));
    assert(line.skip(6) =~= t.text);
    if done {
        assert(done_marker()[3] != open_marker()[3]);
        assert(line.take(6) != open_marker());
    }
}

/// Folding over task lines appends their tasks in order.
proof fn lemma_task_lines_fold(ts: Seq<TaskView>, done: bool, st: ParseState)
    requires
        forall|i: int| 0 <= i < ts.len() ==> round_trips(#[trigger] ts[i].text),
        st.section == (if done {
            Section::Completed
        } else {
            Section::Active
        }),
    ensures
        parse_fold(task_lines(ts, marker(done)), st) == Ok::<ParseState, ParseError>(
            ParseState {
                parsed: ParsedView {
                    timestamp: st.parsed.timestamp,
                    active: if done {
                        st.parsed.active
                    } else {
                        st.parsed.active + with_done(ts, false)
                    },
                    completed: if done {
                        st.parsed.completed + with_done(ts, true)
                    } else {
                        st.parsed.completed
                    },
                },
                section: st.section,
            },
        ),
    decreases ts.len(),
{
    let ls = task_lines(ts, marker(done));
    if ts.len() == 0 {
        assert(with_done(ts, false) =~= Seq::<TaskView>::empty());
        assert(with_done(ts, true) =~= Seq::<TaskView>::empty());
        assert(st.parsed.active + with_done(ts, false) =~= st.parsed.active);
        assert(st.parsed.completed + with_done(ts, true) =~= st.parsed.completed);
    } else {
        let rest = ts.drop_first();
        assert(ls[0] == marker(done) + ts[0].text);
        assert(ls.drop_first() =~= task_lines(rest, marker(done)));
        lemma_task_step(st, ts[0], done);
        let next = parse_step(st, ls[0])->Ok_0;
        assert forall|i: int| 0 <= i < rest.len() implies round_trips(#[trigger] rest[i].text) by {
            assert(rest[i] == ts[i + 1]);
        }
        lemma_task_lines_fold(rest, done, next);
        assert(st.parsed.active.push(TaskView { text: ts[0].text, done: false }) + with_done(
            rest,
            false,
        ) =~= st.parsed.active + with_done(ts, false));
        assert(st.parsed.completed.push(TaskView { text: ts[0].text, done: true }) + with_done(
            rest,
            true,
        ) =~= st.parsed.completed + with_done(ts, true));
    }
}

proof fn lemma_file_lines_single(ts: Option<Timestamp>, active: Seq<TaskView>, completed: Seq<TaskView>)
    requires
        ts matches Some(t) ==> t.in_header_range(),
        forall|i: int| 0 <= i < active.len() ==> round_trips(#[trigger] active[i].text),
        forall|i: int| 0 <= i < completed.len() ==> round_trips(#[trigger] completed[i].text),
    ensures
        lines(spec_serialize(ts, active, completed)) == file_lines(ts, active, completed) + seq![
            Seq::<u8>::empty(),
        ],
{
    lemma_marker_bytes();
    let ls = file_lines(ts, active, completed);
    let n = active.len() as int;
    assert forall|i: int| 0 <= i < ls.len() implies no_newline(#[trigger] ls[i]) by {
        if i == 0 {
            match ts {
                Some(t) => {
                    lemma_header_chars(t);
                    let r = encode_utf8(t.header_chars());
                    assert forall|k: int| 0 <= k < ls[i].len() implies ls[i][k] != 10u8 by {
                        if k >= 10 {
                            assert(ls[i][k] == r[k - 10]);
                        } else {
                            assert(ls[i][k] == session_prefix()[k]);
                        }
                    }
                },
                None => {},
            }
        } else if 4 <= i < 4 + n {
            assert(ls[i] == open_marker() + active[i - 4].text);
            assert forall|k: int| 0 <= k < ls[i].len() implies ls[i][k] != 10u8 by {
                if k >= 6 {
                    assert(ls[i][k] == active[i - 4].text[k - 6]);
                }
            }
        } else if 7 + n <= i {
            assert(ls[i] == done_marker() + completed[i - 7 - n].text);
            assert forall|k: int| 0 <= k < ls[i].len() implies ls[i][k] != 10u8 by {
                if k >= 6 {
                    assert(ls[i][k] == completed[i - 7 - n].text[k - 6]);
                }
            }
        }
    }
    lemma_lines_terminated(ls);
}

proof fn lemma_preamble_fold(ts: Option<Timestamp>)
    requires
        ts matches Some(t) ==> t.in_header_range(),
    ensures
        parse_fold(
            seq![header_line(ts), Seq::<u8>::empty(), active_heading(), Seq::<u8>::empty()],
            initial_state(),
        ) == Ok::<ParseState, ParseError>(
            ParseState {
                parsed: ParsedView { timestamp: ts, active: Seq::empty(), completed: Seq::empty() },
                section: Section::Active,
            },
        ),
{
    let e = Seq::<u8>::empty();
    let p1 = seq![header_line(ts), e, active_heading(), e];
    let s0 = initial_state();
    lemma_header_step(s0, ts);
    let s1 = ParseState {
        parsed: ParsedView { timestamp: ts, active: Seq::empty(), completed: Seq::empty() },
        section: Section::Preamble,
    };
    lemma_blank_step(s1);
    lemma_heading_steps(s1);
    let s2 = ParseState { parsed: s1.parsed, section: Section::Active };
    lemma_blank_step(s2);
    let q1 = p1.drop_first();
    let q2 = q1.drop_first();
    let q3 = q2.drop_first();
    let q4 = q3.drop_first();
    assert(q4 =~= Seq::<Seq<u8>>::empty());
    assert(p1[0] == header_line(ts));
    assert(q1[0] == e);
    assert(q2[0] == active_heading());
    assert(q3[0] == e);
    assert(parse_fold(q4, s2) == Ok::<ParseState, ParseError>(s2));
    assert(parse_fold(q3, s2) == parse_fold(q4, s2));
    assert(parse_fold(q2, s1) == parse_fold(q3, s2));
    assert(parse_fold(q1, s1) == parse_fold(q2, s1));
    assert(parse_fold(p1, s0) == parse_fold(q1, s1));
}

proof fn lemma_middle_fold(st: ParseState)
    ensures
        parse_fold(seq![Seq::<u8>::empty(), completed_heading(), Seq::<u8>::empty()], st) == Ok::<
            ParseState,
            ParseError,
        >(ParseState { parsed: st.parsed, section: Section::Completed }),
        parse_fold(seq![Seq::<u8>::empty()], st) == Ok::<ParseState, ParseError>(st),
{
    let e = Seq::<u8>::empty();
    let p2 = seq![e, completed_heading(), e];
    lemma_blank_step(st);
    lemma_heading_steps(st);
    let s4 = ParseState { parsed: st.parsed, section: Section::Completed };
    lemma_blank_step(s4);
    let q1 = p2.drop_first();
    let q2 = q1.drop_first();
    let q3 = q2.drop_first();
    assert(q3 =~= Seq::<Seq<u8>>::empty());
    assert(p2[0] == e);
    assert(q1[0] == completed_heading());
    assert(q2[0] == e);
    assert(parse_fold(q3, s4) == Ok::<ParseState, ParseError>(s4));
    assert(parse_fold(q2, s4) == parse_fold(q3, s4));
    assert(parse_fold(q1, st) == parse_fold(q2, s4));
    assert(parse_fold(p2, st) == parse_fold(q1, st));
    let tail = seq![e];
    assert(tail[0] == e);
    assert(tail.drop_first() =~= Seq::<Seq<u8>>::empty());
    assert(parse_fold(tail.drop_first(), st) == Ok::<ParseState, ParseError>(st));
}

/// Writing a session and reading it back gives back the timestamp and both
/// task lists, each task's checkbox set by the list it was written to.
/// This holds for every timestamp the header can carry and every task text
/// that fits on one line within the byte cap.
#[verifier::spinoff_prover]
#[verifier::rlimit(40)]
pub proof fn lemma_serialize_then_parse(
    ts: Option<Timestamp>,
    active: Seq<TaskView>,
    completed: Seq<TaskView>,
)
    requires
        ts matches Some(t) ==> t.in_header_range(),
        forall|i: int| 0 <= i < active.len() ==> round_trips(#[trigger] active[i].text),
        forall|i: int| 0 <= i < completed.len() ==> round_trips(#[trigger] completed[i].text),
    ensures
        spec_parse(spec_serialize(ts, active, completed)) == Ok::<ParsedView, ParseError>(
            ParsedView {
                timestamp: ts,
                active: with_done(active, false),
                completed: with_done(completed, true),
            },
        ),
{
    lemma_marker_bytes();
    let ls = file_lines(ts, active, completed);
    lemma_file_lines_single(ts, active, completed);
    let e = Seq::<u8>::empty();
    let p1 = seq![header_line(ts), e, active_heading(), e];
    let ta = task_lines(active, open_marker());
    let p2 = seq![e, completed_heading(), e];
    let tc = task_lines(completed, done_marker());
    let tail = seq![e];
    assert(ls + tail =~= p1 + (ta + (p2 + (tc + tail))));
    let s0 = initial_state();
    lemma_preamble_fold(ts);
    let s2 = ParseState {
        parsed: ParsedView { timestamp: ts, active: Seq::empty(), completed: Seq::empty() },
        section: Section::Active,
    };
    lemma_fold_append(p1, ta + (p2 + (tc + tail)), s0);
    assert(marker(false) == open_marker());
    lemma_task_lines_fold(active, false, s2);
    let s3 = ParseState {
        parsed: ParsedView {
            timestamp: ts,
            active: Seq::<TaskView>::empty() + with_done(active, false),
            completed: Seq::empty(),
        },
        section: Section::Active,
    };
    lemma_fold_append(ta, p2 + (tc + tail), s2);
    lemma_middle_fold(s3);
    let s4 = ParseState { parsed: s3.parsed, section: Section::Completed };
    lemma_fold_append(p2, tc + tail, s3);
    assert(marker(true) == done_marker());
    lemma_task_lines_fold(completed, true, s4);
    let s5 = ParseState {
        parsed: ParsedView {
            timestamp: ts,
            active: s3.parsed.active,
            completed: Seq::<TaskView>::empty() + with_done(completed, true),
        },
        section: Section::Completed,
    };
    lemma_fold_append(tc, tail, s4);
    lemma_middle_fold(s5);
    assert(Seq::<TaskView>::empty() + with_done(active, false) =~= with_done(active, false));
    assert(Seq::<TaskView>::empty() + with_done(completed, true) =~= with_done(completed, true));
}


/// Tasks among `ts` whose box is unticked.
pub open spec fn open_count(ts: Seq<TaskView>) -> nat
    decreases ts.len(),
{
    if ts.len() == 0 {
        0
    } else {
        open_count(ts.drop_last()) + if ts.last().done {
            0nat
        } else {
            1nat
        }
    }
}

proof fn lemma_open_count_push(ts: Seq<TaskView>, t: TaskView)
    ensures
        open_count(ts.push(t)) == open_count(ts) + if t.done {
            0nat
        } else {
            1nat
        },
{
    assert(ts.push(t).drop_last() =~= ts);
}

/// A line that is a header or a heading is not a task line.
proof fn lemma_header_not_task(line: Seq<u8>)
    requires
        header_timestamp(line) is Some || line == active_heading() || line == completed_heading(),
    ensures
        task_line(line) is None,
{
    lemma_marker_bytes();
    if header_timestamp(line) is Some {
        assert(line[0] == line.take(10)[0]);
    }
    if line.len() >= 6 {
        assert(line.take(6)[0] == line[0]);
    }
}

proof fn lemma_fold_counts(ls: Seq<Seq<u8>>, st: ParseState)
    ensures
        parse_fold(ls, st) matches Ok(end) ==> {
            &&& end.parsed.active.len() + end.parsed.completed.len() == st.parsed.active.len()
                + st.parsed.completed.len() + task_totals(ls).1
            &&& open_count(end.parsed.active) + open_count(end.parsed.completed) == open_count(
                st.parsed.active,
            ) + open_count(st.parsed.completed) + task_totals(ls).0
        },
    decreases ls.len(),
{
    if ls.len() > 0 {
        let line = strip_cr(ls[0]);
        match parse_step(st, ls[0]) {
            Ok(next) => {
                lemma_fold_counts(ls.drop_first(), next);
                if header_timestamp(line) is Some || line == active_heading() || line
                    == completed_heading() {
                    lemma_header_not_task(line);
                } else {
                    match task_line(line) {
                        Some((text, done)) => {
                            let t = TaskView { text, done };
                            lemma_open_count_push(st.parsed.active, t);
                            lemma_open_count_push(st.parsed.completed, t);
                        },
                        None => {},
                    }
                }
            },
            Err(_) => {},
        }
    }
}

/// The picker's quick count agrees with a full parse: whenever a file
/// parses, its task lines are exactly the parsed tasks, and its open ones
/// exactly those left unticked.
pub proof fn lemma_counts_agree_with_parse(s: Seq<u8>)
    requires
        spec_parse(s) is Ok,
    ensures
        task_totals(lines(s)).1 == spec_parse(s)->Ok_0.active.len() + spec_parse(
            s,
        )->Ok_0.completed.len(),
        task_totals(lines(s)).0 == open_count(spec_parse(s)->Ok_0.active) + open_count(
            spec_parse(s)->Ok_0.completed,
        ),
{
    lemma_fold_counts(lines(s), initial_state());
}

pub proof fn lemma_lines_single_lines(s: Seq<u8>)
    ensures
        forall|i: int| 0 <= i < lines(s).len() ==> no_newline(#[trigger] lines(s)[i]),
    decreases s.len(),
{
    let e = line_end(s);
    lemma_line_end(s);
    if e < s.len() {
        lemma_lines_single_lines(s.skip(e + 1));
        let ls = lines(s);
        assert forall|i: int| 0 <= i < ls.len() implies no_newline(#[trigger] ls[i]) by {
            if i == 0 {
                assert(ls[0] == s.take(e));
            } else {
                assert(ls[i] == lines(s.skip(e + 1))[i - 1]);
            }
        }
    }
}

proof fn lemma_digits_value_bound(d: Seq<u8>)
    requires
        forall|k: int| 0 <= k < d.len() ==> is_digit(#[trigger] d[k]),
    ensures
        digits_value(d) < pow10(d.len()),
    decreases d.len(),
{
    if d.len() > 0 {
        let init = d.drop_last();
        assert forall|k: int| 0 <= k < init.len() implies is_digit(#[trigger] init[k]) by {
            assert(init[k] == d[k]);
        }
        lemma_digits_value_bound(init);
        assert(is_digit(d[d.len() - 1]));
        assert(pow10(d.len()) == 10 * pow10(init.len()));
    }
}

/// Everything a parse produces can be written and read back.
pub open spec fn writable(p: ParsedView) -> bool {
    &&& p.timestamp matches Some(t) ==> t.in_header_range()
    &&& forall|i: int| 0 <= i < p.active.len() ==> {
        &&& (#[trigger] p.active[i]).text.len() <= MAX_TASK_BYTES
        &&& no_newline(p.active[i].text)
    }
    &&& forall|i: int| 0 <= i < p.completed.len() ==> {
        &&& (#[trigger] p.completed[i]).text.len() <= MAX_TASK_BYTES
        &&& no_newline(p.completed[i].text)
    }
}

proof fn lemma_header_in_range(line: Seq<u8>)
    ensures
        header_timestamp(line) matches Some(t) ==> t.in_header_range(),
{
    if header_timestamp(line) is Some {
        let f = line.skip(10).subrange(0, 4);
        let d = unsigned_digits(f);
        assert forall|k: int| 0 <= k < d.len() implies is_digit(#[trigger] d[k]) by {}
        lemma_digits_value_bound(d);
        assert(pow10(4) == 10000) by {
            reveal_with_fuel(pow10, 5);
        }
        assert(pow10(3) == 1000) by {
            reveal_with_fuel(pow10, 4);
        }
    }
}

proof fn lemma_fold_writable(ls: Seq<Seq<u8>>, st: ParseState)
    requires
        writable(st.parsed),
        forall|i: int| 0 <= i < ls.len() ==> no_newline(#[trigger] ls[i]),
    ensures
        parse_fold(ls, st) matches Ok(end) ==> writable(end.parsed),
    decreases ls.len(),
{
    if ls.len() > 0 {
        let line = strip_cr(ls[0]);
        assert(no_newline(ls[0]));
        assert(no_newline(line)) by {
            assert forall|k: int| 0 <= k < line.len() implies line[k] != 10u8 by {
                assert(line[k] == ls[0][k]);
            }
        }
        let rest = ls.drop_first();
        assert forall|i: int| 0 <= i < rest.len() implies no_newline(#[trigger] rest[i]) by {
            assert(rest[i] == ls[i + 1]);
        }
        lemma_header_in_range(line);
        match parse_step(st, ls[0]) {
            Ok(next) => {
                match task_line(line) {
                    Some((text, done)) => {
                        assert(no_newline(text)) by {
                            assert forall|k: int| 0 <= k < text.len() implies text[k] != 10u8 by {
                                assert(text[k] == line[k + 6]);
                            }
                        }
                    },
                    None => {},
                }
                assert(writable(next.parsed));
                lemma_fold_writable(rest, next);
            },
            Err(_) => {},
        }
    }
}

/// Whether no task of `p` ends in a carriage return.
pub open spec fn no_trailing_cr(p: ParsedView) -> bool {
    &&& forall|i: int|
        0 <= i < p.active.len() ==> !((#[trigger] p.active[i]).text.len() > 0 && p.active[i].text.last()
            == 13u8)
    &&& forall|i: int|
        0 <= i < p.completed.len() ==> !((#[trigger] p.completed[i]).text.len() > 0
            && p.completed[i].text.last() == 13u8)
}

/// Every task a parse produces can be written and read back unchanged,
/// unless its text ends in a carriage return.
pub proof fn lemma_parsed_round_trips(s: Seq<u8>)
    requires
        spec_parse(s) is Ok,
        no_trailing_cr(spec_parse(s)->Ok_0),
    ensures
        ({
            let p = spec_parse(s)->Ok_0;
            &&& p.timestamp matches Some(t) ==> t.in_header_range()
            &&& forall|i: int| 0 <= i < p.active.len() ==> round_trips(#[trigger] p.active[i].text)
            &&& forall|i: int| 0 <= i < p.completed.len() ==> round_trips(#[trigger] p.completed[i].text)
        }),
{
    let p = spec_parse(s)->Ok_0;
    lemma_lines_single_lines(s);
    assert(writable(initial_state().parsed));
    lemma_fold_writable(lines(s), initial_state());
    assert forall|i: int| 0 <= i < p.active.len() implies round_trips(#[trigger] p.active[i].text) by {}
    assert forall|i: int| 0 <= i < p.completed.len() implies round_trips(
        #[trigger] p.completed[i].text,
    ) by {}
}

/// Parse, write, parse is a fixed point: a file that parses writes back out
/// as a canonical file that parses to the same timestamp and tasks (each
/// checkbox set by its list), and whose own canonical form is itself. It
/// holds for every file whose tasks do not end in a carriage return that
/// survived the parser's single `\r` strip.
pub proof fn lemma_parse_serialize_fixed_point(s: Seq<u8>)
    requires
        spec_parse(s) is Ok,
        no_trailing_cr(spec_parse(s)->Ok_0),
    ensures
        ({
            let p = spec_parse(s)->Ok_0;
            let q = ParsedView {
                timestamp: p.timestamp,
                active: with_done(p.active, false),
                completed: with_done(p.completed, true),
            };
            &&& spec_parse(spec_serialize(p.timestamp, p.active, p.completed)) == Ok::<
                ParsedView,
                ParseError,
            >(q)
            &&& spec_serialize(q.timestamp, q.active, q.completed) == spec_serialize(
                p.timestamp,
                p.active,
                p.completed,
            )
        }),
{
    let p = spec_parse(s)->Ok_0;
    lemma_parsed_round_trips(s);
    lemma_serialize_then_parse(p.timestamp, p.active, p.completed);
    let qa = with_done(p.active, false);
    let qc = with_done(p.completed, true);
    assert(task_lines(qa, open_marker()) =~= task_lines(p.active, open_marker()));
    assert(task_lines(qc, done_marker()) =~= task_lines(p.completed, done_marker()));
    assert(file_lines(p.timestamp, qa, qc) =~= file_lines(p.timestamp, p.active, p.completed));
}

/// The lines of a CRLF buffer, each stripped of its `\r`, are the lines of
/// the LF buffer it was written from.
proof fn lemma_crlf_lines(s: Seq<u8>)
    requires
        no_cr(s),
    ensures
        lines(crlf(s)).len() == lines(s).len(),
        forall|i: int|
            0 <= i < lines(s).len() ==> strip_cr(#[trigger] lines(crlf(s))[i]) == lines(s)[i]
                && strip_cr(lines(s)[i]) == lines(s)[i],
    decreases s.len(),
{
    lemma_line_end(s);
    let e = line_end(s);
    if e < s.len() {
        let x = s.take(e);
        let rest = s.skip(e + 1);
        assert(s =~= x + seq![10u8] + rest);
        assert forall|k: int| 0 <= k < x.len() implies x[k] != 10u8 by {}
        assert forall|k: int| 0 <= k < rest.len() implies rest[k] != 13u8 by {
            assert(rest[k] == s[e + 1 + k]);
        }
        lemma_crlf_append(x + seq![10u8], rest);
        lemma_crlf_append(x, seq![10u8]);
        lemma_crlf_no_newline(x);
        assert(crlf(seq![10u8]) =~= seq![13u8, 10u8]) by {
            reveal_with_fuel(crlf, 2);
            assert(seq![10u8].drop_first() =~= Seq::<u8>::empty());
        }
        let x13 = x.push(13u8);
        assert(crlf(s) =~= x13 + seq![10u8] + crlf(rest));
        assert forall|k: int| 0 <= k < x13.len() implies x13[k] != 10u8 by {}
        lemma_lines_join(x13, crlf(rest));
        lemma_lines_no_newline(x13);
        lemma_crlf_lines(rest);
        assert(x13.drop_last() =~= x);
        assert(strip_cr(x13) == x);
        assert(strip_cr(x) == x) by {
            if x.len() > 0 {
                assert(x.last() == s[e - 1]);
            }
        }
        assert(lines(s) == seq![x] + lines(rest));
        assert(lines(crlf(s)) == seq![x13] + lines(crlf(rest)));
        assert forall|i: int| 0 <= i < lines(s).len() implies strip_cr(#[trigger] lines(crlf(s))[i])
            == lines(s)[i] && strip_cr(lines(s)[i]) == lines(s)[i] by {
            if i > 0 {
                assert(lines(crlf(s))[i] == lines(crlf(rest))[i - 1]);
                assert(lines(s)[i] == lines(rest)[i - 1]);
            }
        }
    } else {
        assert(no_newline(s));
        lemma_crlf_no_newline(s);
        lemma_lines_no_newline(s);
        assert(strip_cr(s) == s) by {
            if s.len() > 0 {
                assert(s.last() == s[s.len() - 1]);
            }
        }
    }
}

/// The parser reads each line only through `strip_cr`, so lists of lines
/// that agree once stripped parse alike.
proof fn lemma_fold_stripped(a: Seq<Seq<u8>>, b: Seq<Seq<u8>>, st: ParseState)
    requires
        a.len() == b.len(),
        forall|i: int| 0 <= i < a.len() ==> strip_cr(#[trigger] a[i]) == strip_cr(b[i]),
    ensures
        parse_fold(a, st) == parse_fold(b, st),
    decreases a.len(),
{
    if a.len() > 0 {
        assert(strip_cr(a[0]) == strip_cr(b[0]));
        assert(parse_step(st, a[0]) == parse_step(st, b[0]));
        match parse_step(st, a[0]) {
            Ok(next) => {
                assert forall|i: int| 0 <= i < a.drop_first().len() implies strip_cr(
                    #[trigger] a.drop_first()[i],
                ) == strip_cr(b.drop_first()[i]) by {
                    assert(a.drop_first()[i] == a[i + 1]);
                    assert(b.drop_first()[i] == b[i + 1]);
                }
                lemma_fold_stripped(a.drop_first(), b.drop_first(), next);
            },
            Err(_) => {},
        }
    }
}

/// A file with CRLF line endings parses exactly as the same file with LF
/// endings: the same timestamp and tasks, or the same error.
pub proof fn lemma_crlf_parses_alike(s: Seq<u8>)
    requires
        no_cr(s),
    ensures
        spec_parse(crlf(s)) == spec_parse(s),
{
    lemma_crlf_lines(s);
    let a = lines(crlf(s));
    let b = lines(s);
    assert forall|i: int| 0 <= i < a.len() implies strip_cr(#[trigger] a[i]) == strip_cr(b[i]) by {}
    lemma_fold_stripped(a, b, initial_state());
}

/// A session text with CRLF line endings parses exactly as the same text
/// with LF endings: the same timestamp and tasks, or the same error. It
/// holds for every text that has no `'\r'` of its own.
pub proof fn lemma_crlf_text_parses_alike(t: Seq<char>)
    requires
        forall|k: int| 0 <= k < t.len() ==> t[k] != '\r',
    ensures
        spec_parse(encode_utf8(crlf_chars(t))) == spec_parse(encode_utf8(t)),
{
    lemma_crlf_encode(t);
    lemma_crlf_parses_alike(encode_utf8(t));
}

} // verus!



