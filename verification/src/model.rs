//! Plain data types for a coding session.

use vstd::prelude::*;
use vstd::utf8::*;
use crate::format::{push_char, push_zero_padded, zero_padded};

verus! {

/// Tasks are short notes, capped so rendering never needs to wrap.
pub const MAX_TASK_BYTES: usize = 150;

/// A single task.
#[derive(Debug, Clone, PartialEq, Eq)]
pub struct Task {
    pub text: String,
    pub done: bool,
}

/// The mathematical value of a task: its text as UTF-8 bytes, and its flag.
pub struct TaskView {
    pub text: Seq<u8>,
    pub done: bool,
}

impl View for Task {
    type V = TaskView;

    open spec fn view(&self) -> TaskView {
        TaskView { text: encode_utf8(self.text@), done: self.done }
    }
}

/// Wall-clock time at minute granularity: all the filenames and the
/// markdown header need.
#[derive(Debug, Clone, Copy, PartialEq, Eq, Structural)]
pub struct Timestamp {
    pub year: u16,
    pub month: u8,
    pub day: u8,
    pub hour: u8,
    pub minute: u8,
}

impl Timestamp {
    /// The header form used inside session files and in the app header:
    /// `2026-05-31 14:30`, every field zero-padded.
    pub open spec fn header_chars(self) -> Seq<char> {
        zero_padded(self.year as nat, 4) + seq!['-'] + zero_padded(self.month as nat, 2) + seq![
            '-',
        ] + zero_padded(self.day as nat, 2) + seq![' '] + zero_padded(self.hour as nat, 2)
            + seq![':'] + zero_padded(self.minute as nat, 2)
    }

    /// Whether every field is in the range the session header accepts.
    pub open spec fn in_header_range(self) -> bool {
        &&& self.year <= 9999
        &&& 1 <= self.month <= 12
        &&& 1 <= self.day <= 31
        &&& self.hour <= 23
        &&& self.minute <= 59
    }

    /// The header form of this timestamp, e.g. `2026-05-31 14:30`.
    ///
    /// Note this is deliberately not the filename form, which separates date
    /// from time with an underscore so the name stays shell-friendly.
    pub fn to_string(&self) -> (s: String)
        ensures
            s@ == self.header_chars(),
    {
        let mut s = String::new();
        push_zero_padded(&mut s, self.year as u64, 4);
        push_char(&mut s, '-');
        push_zero_padded(&mut s, self.month as u64, 2);
        push_char(&mut s, '-');
        push_zero_padded(&mut s, self.day as u64, 2);
        push_char(&mut s, ' ');
        push_zero_padded(&mut s, self.hour as u64, 2);
        push_char(&mut s, ':');
        push_zero_padded(&mut s, self.minute as u64, 2);
        proof {
            assert(s@ =~= self.header_chars());
        }
        s
    }
}

/// Which pane has focus. Movement and toggling apply to whichever this names.
#[derive(Debug, Clone, Copy, PartialEq, Eq, Structural)]
pub enum Pane {
    Active,
    Completed,
}

impl Pane {
    pub open spec fn spec_other(self) -> Pane {
        match self {
            Pane::Active => Pane::Completed,
            Pane::Completed => Pane::Active,
        }
    }

    /// The opposite pane. Toggling moves a task from one to the other.
    pub fn other(self) -> (r: Pane)
        ensures
            r == self.spec_other(),
            r != self,
    {
        match self {
            Pane::Active => Pane::Completed,
            Pane::Completed => Pane::Active,
        }
    }
}

/// `r` is the longest prefix of `s` that ends on a character boundary and
/// is at most `max` bytes long; `s` itself when it already fits.
pub open spec fn is_boundary_truncation(r: Seq<u8>, s: Seq<u8>, max: int) -> bool {
    &&& s.len() <= max ==> r == s
    &&& r == s.take(r.len() as int)
    &&& r.len() <= max
    &&& is_char_boundary(s, r.len() as int)
    &&& forall|j: int| r.len() < j <= max ==> !is_char_boundary(s, j)
}

/// Longest prefix of `s` that fits in `max` bytes without splitting a
/// character.
pub fn truncate_on_char_boundary(s: &str, max: usize) -> (r: &str)
    ensures
        encode_utf8(s@).len() <= max ==> r@ == s@,
        is_boundary_truncation(encode_utf8(r@), encode_utf8(s@), max as int),
{
    broadcast use vstd::utf8::group_utf8_lib;
    let bytes = s.as_bytes();
    if bytes.len() <= max {
        proof {
            let b = encode_utf8(s@);
            assert(b.take(b.len() as int) =~= b);
            is_char_boundary_start_end_of_seq(b);
            assert forall|j: int| b.len() < j <= max implies !is_char_boundary(b, j) by {}
        }
        return s;
    }
    let ghost b = encode_utf8(s@);
    let mut end = max;
    while end > 0 && !s.is_char_boundary(end)
        invariant
            end <= max,
            max < b.len(),
            b == encode_utf8(s@),
            forall|j: int| end < j <= max ==> !is_char_boundary(b, j),
        decreases end,
    {
        end -= 1;
    }
    proof {
        is_char_boundary_start_end_of_seq(b);
    }
    let (head, _) = s.split_at(end);
    proof {
        decode_utf8_encode_utf8(b.subrange(0, end as int));
    }
    head
}

} // verus!
