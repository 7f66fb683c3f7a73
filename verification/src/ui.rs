//! The session screen's geometry and click timing: what the renderer and the
//! event loop agree on about where things are on screen.

use vstd::prelude::*;
use vstd::utf8::*;
use crate::input::Rect;
use crate::model::{Pane, Timestamp};
use crate::format::{decimal, decimal_string};

verus! {

/// Below this, draw only a "terminal too small" message.
pub const MIN_ROWS: u16 = 10;

pub const MIN_COLS: u16 = 30;

/// Rows each task occupies: one blank spacer plus one content row, so items
/// read as visually separated.
pub const ROW_STRIDE: u16 = 2;

/// Two clicks on the same target within this many nanoseconds (400 ms)
/// count as a double click.
pub const DOUBLE_CLICK_NANOS: u64 = 400000000;

/// Something a click lands on, comparable for "the same target".
pub trait ClickTarget: Sized {
    fn same(&self, other: &Self) -> (r: bool)
        ensures
            r == (*self == *other),
    ;
}

impl ClickTarget for usize {
    fn same(&self, other: &Self) -> (r: bool) {
        *self == *other
    }
}

impl ClickTarget for (Pane, usize) {
    fn same(&self, other: &Self) -> (r: bool) {
        self.0 == other.0 && self.1 == other.1
    }
}

/// Tracks repeat clicks on the same target. `K` identifies whatever "the same
/// target" means to the caller: a row index in the picker, a (pane, index)
/// pair in the main view. Times are nanoseconds on a monotonic clock.
#[derive(Debug, Clone, Copy, PartialEq, Eq)]
pub struct ClickTracker<K> {
    last: Option<(u64, K)>,
}

impl<K> ClickTracker<K> {
    /// The click waiting for a partner: when it came, and on what.
    pub closed spec fn pending(self) -> Option<(u64, K)> {
        self.last
    }

    /// Forget the pending click, so the next one cannot pair with it.
    pub fn reset(&mut self)
        ensures
            final(self).pending() is None,
    {
        self.last = None;
    }
}

impl<K> Default for ClickTracker<K> {
    fn default() -> (r: Self)
        ensures
            r.pending() is None,
    {
        ClickTracker { last: None }
    }
}

/// Whether a click at `now` on `key` completes a double click with the one
/// pending: same target, and no more than the window later (a clock that
/// runs backwards counts as no time at all).
pub open spec fn pairs<K>(pending: Option<(u64, K)>, key: K, now: u64) -> bool {
    pending matches Some((t, k)) && k == key && now - t <= DOUBLE_CLICK_NANOS
}

impl<K: ClickTarget + Copy> ClickTracker<K> {
    /// Record a click on `key` at `now`, returning whether it completes a
    /// double click. A completed double click clears the tracker, so three
    /// rapid clicks register as one double click and one single.
    pub fn click(&mut self, key: K, now: u64) -> (is_double: bool)
        ensures
            is_double == pairs(old(self).pending(), key, now),
            final(self).pending() == if is_double {
                None
            } else {
                Some((now, key))
            },
    {
        let is_double = match self.last {
            Some((t, k)) => k.same(&key) && now.saturating_sub(t) <= DOUBLE_CLICK_NANOS,
            None => false,
        };
        self.last = if is_double {
            None
        } else {
            Some((now, key))
        };
        is_double
    }
}

/// Double clicks do not chain: once a click completes a double click, the
/// tracker it leaves behind pairs the next click with nothing, so three
/// rapid clicks are one double click and one single.
pub proof fn lemma_doubles_do_not_chain<K>(
    before: ClickTracker<K>,
    after: ClickTracker<K>,
    key: K,
    now: u64,
    next: K,
    later: u64,
)
    requires
        pairs(before.pending(), key, now),
        after.pending() == (if pairs(before.pending(), key, now) {
            None
        } else {
            Some((now, key))
        }),
    ensures
        !pairs(after.pending(), next, later),
{
}

/// How many tasks fit in a pane of `pane_height` rows, borders included.
pub fn visible_tasks(pane_height: u16) -> (r: usize)
    ensures
        r == (if pane_height >= 2 { (pane_height - 2) / 2 } else { 0 }),
{
    let inner = pane_height.saturating_sub(2);
    (inner / ROW_STRIDE) as usize
}

/// Which overlay, if any, covers the session screen.
#[derive(Debug, Clone, Copy, PartialEq, Eq)]
pub enum Overlay<'a> {
    Off,
    Input(&'a str),
    Help,
}

/// Where the panes landed this frame, so mouse events can be hit-tested
/// against the same geometry the user is looking at.
#[derive(Debug, Clone, Copy, Default, PartialEq, Eq, Structural)]
pub struct PaneRects {
    pub active: Rect,
    pub completed: Rect,
}

/// Whether an area is too small for the session screen.
pub fn too_small(area: Rect) -> (r: bool)
    ensures
        r == (area.height < MIN_ROWS || area.width < MIN_COLS),
{
    area.height < MIN_ROWS || area.width < MIN_COLS
}

/// The two panes of a panes area: the left gets half the width rounded
/// down, the odd column lands in the right pane.
pub fn split_panes(area: Rect) -> (r: PaneRects)
    requires
        area.fits(),
    ensures
        r.active == (Rect { x: area.x, y: area.y, width: area.width / 2, height: area.height }),
        r.completed.x == area.x + area.width / 2,
        r.completed.y == area.y,
        r.completed.width == area.width - area.width / 2,
        r.completed.height == area.height,
{
    let half = area.width / 2;
    PaneRects {
        active: Rect { x: area.x, y: area.y, width: half, height: area.height },
        completed: Rect {
            x: area.x + half,
            y: area.y,
            width: area.width - half,
            height: area.height,
        },
    }
}

/// `r` is the shortest suffix of `b` that starts on a character boundary
/// at or after byte `b.len() - room`: the part of a long input that still
/// fits, cut from the left without splitting a character.
pub open spec fn is_boundary_tail(r: Seq<u8>, b: Seq<u8>, room: int) -> bool {
    &&& b.len() <= room ==> r == b
    &&& r == b.skip(b.len() - r.len())
    &&& r.len() <= room
    &&& is_char_boundary(b, b.len() - r.len())
    &&& forall|j: int| b.len() - room <= j < b.len() - r.len() ==> !is_char_boundary(b, j)
}

/// The end of the input shown in a field `room` characters wide: the whole
/// input when it fits, else its tail, so the caret stays visible.
pub fn input_tail(buf: &str, room: usize) -> (r: &str)
    ensures
        is_boundary_tail(encode_utf8(r@), encode_utf8(buf@), room as int),
{
    broadcast use vstd::utf8::group_utf8_lib;
    let len = buf.as_bytes().len();
    let ghost b = encode_utf8(buf@);
    if len <= room {
        proof {
            assert(b.skip(0) =~= b);
            is_char_boundary_start_end_of_seq(b);
        }
        return buf;
    }
    let mut start = len - room;
    while start < len && !buf.is_char_boundary(start)
        invariant
            len - room <= start <= len,
            len == b.len(),
            b == encode_utf8(buf@),
            forall|j: int| len - room <= j < start ==> !is_char_boundary(b, j),
        decreases len - start,
    {
        start += 1;
    }
    proof {
        is_char_boundary_start_end_of_seq(b);
    }
    let (_, tail) = buf.split_at(start);
    proof {
        decode_utf8_encode_utf8(b.subrange(start as int, b.len() as int));
        assert(encode_utf8(tail@) =~= b.skip(start as int));
    }
    tail
}

/// Inner width of the help box.
pub const HELP_INNER_W: u16 = 52;

/// Lines of the help box.
pub const HELP_ROWS: u16 = 26;

/// Where the help box goes in `area`: centred, one row of padding inside
/// each border, and only when a one-cell margin remains on every side.
pub fn help_rect(area: Rect) -> (r: Option<Rect>)
    requires
        area.fits(),
    ensures
        ({
            let w = HELP_INNER_W + 4;
            let h = HELP_ROWS + 4;
            &&& (area.width < w + 2 || area.height < h + 2) ==> r is None
            &&& !(area.width < w + 2 || area.height < h + 2) ==> r == Some(
                Rect {
                    x: (area.x + (area.width - w) / 2) as u16,
                    y: (area.y + (area.height - h) / 2) as u16,
                    width: w as u16,
                    height: h as u16,
                },
            )
        }),
{
    let w: u16 = HELP_INNER_W + 4;
    let h: u16 = HELP_ROWS + 4;
    if area.width < w + 2 || area.height < h + 2 {
        return None;
    }
    Some(Rect { x: area.x + (area.width - w) / 2, y: area.y + (area.height - h) / 2, width: w, height: h })
}

/// Whether to draw in colour, given the value of `NO_COLOR`: any non-empty
/// value turns colour off (no-color.org); unset, or unreadable, leaves it on.
pub fn colors_wanted(no_color: Option<&str>) -> (r: bool)
    ensures
        r == match no_color {
            Some(v) => v@.len() == 0,
            None => true,
        },
{
    match no_color {
        Some(v) => v.is_empty(),
        None => true,
    }
}

/// The header's timestamp part: `· 2026-05-31 14:30 `.
pub fn header_stamp(ts: Timestamp) -> (s: String)
    ensures
        s@ == "· "@ + ts.header_chars() + " "@,
{
    let mut s = "· ".to_owned();
    s.append(ts.to_string().as_str());
    s.append(" ");
    proof {
        assert(s@ =~= "· "@ + ts.header_chars() + " "@);
    }
    s
}

/// The header's counts part: `· 2 active / 1 done`.
pub fn header_counts(active: usize, done: usize) -> (s: String)
    ensures
        s@ == "· "@ + decimal(active as nat) + " active / "@ + decimal(done as nat) + " done"@,
{
    let mut s = "· ".to_owned();
    s.append(decimal_string(active as u64).as_str());
    s.append(" active / ");
    s.append(decimal_string(done as u64).as_str());
    s.append(" done");
    proof {
        assert(s@ =~= "· "@ + decimal(active as nat) + " active / "@ + decimal(done as nat) + " done"@);
    }
    s
}

} // verus!
