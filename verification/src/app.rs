//! The session screen's state and what every key and click does to it.
//!
//! `App` owns the view state and mutates the `Session`. It never touches the
//! terminal or the disk: the event loop draws, reads events, hands them here,
//! and performs the `Request` that comes back.

use vstd::prelude::*;
use vstd::utf8::*;
use crate::format::{pop_char, push_char};
use crate::input::{Event, KeyCode, KeyEvent, MouseButton, MouseEvent, MouseKind, Rect};
use crate::model::{MAX_TASK_BYTES, Pane};
use crate::session::{PullError, SaveError, Session};
use crate::text::lemma_encode_concat;
use crate::ui::{ClickTracker, Overlay, PaneRects, pairs, visible_tasks};

verus! {

/// Anything that can end the event loop early: terminal I/O, or the
/// exit-time autosave.
#[derive(Debug)]
pub enum RunError {
    Io(std::io::Error),
    Save(SaveError),
    Pull(PullError),
}

/// What a screen cell resolves to.
#[derive(Debug, Clone, Copy, PartialEq, Eq, Structural)]
pub enum Hit {
    Task { pane: Pane, index: usize },
    Pane(Pane),
}

#[derive(Debug, Clone, Copy, PartialEq, Eq, Structural)]
pub enum Mode {
    Normal,
    AddInput,
    Help,
}

/// What the event loop must do once an event has been handled.
#[derive(Debug, Clone, Copy, PartialEq, Eq, Structural)]
pub enum Request {
    Continue,
    /// Write the session to disk now.
    Save,
    /// Run the pull screens; the session is saved along with the pull.
    Pull,
}

/// Where the user is looking: focus, cursors, scroll offsets, the mode, the
/// quit flag, and the pane geometry of the last frame.
#[derive(Debug, Clone, Copy, PartialEq, Eq, Structural)]
pub struct ScreenState {
    pub focused: Pane,
    pub active_cursor: usize,
    pub completed_cursor: usize,
    pub active_scroll: usize,
    pub completed_scroll: usize,
    pub mode: Mode,
    pub quit: bool,
    pub pane_rects: PaneRects,
}

impl ScreenState {
    pub open spec fn cursor(self, pane: Pane) -> usize {
        match pane {
            Pane::Active => self.active_cursor,
            Pane::Completed => self.completed_cursor,
        }
    }

    pub open spec fn scroll(self, pane: Pane) -> usize {
        match pane {
            Pane::Active => self.active_scroll,
            Pane::Completed => self.completed_scroll,
        }
    }

    pub open spec fn with_cursor(self, pane: Pane, c: int) -> ScreenState {
        match pane {
            Pane::Active => ScreenState { active_cursor: c as usize, ..self },
            Pane::Completed => ScreenState { completed_cursor: c as usize, ..self },
        }
    }

    pub open spec fn with_scroll(self, pane: Pane, s: int) -> ScreenState {
        match pane {
            Pane::Active => ScreenState { active_scroll: s as usize, ..self },
            Pane::Completed => ScreenState { completed_scroll: s as usize, ..self },
        }
    }
}

#[derive(Debug)]
pub struct App {
    pub session: Session,
    /// The add-task field's text.
    pub input: String,
    pub screen: ScreenState,
    pub last_click: ClickTracker<(Pane, usize)>,
}

/// The last valid index of a list of `len`, for a cursor at `c`.
pub open spec fn clamp_index(c: int, len: int) -> int {
    if len <= 0 {
        0
    } else if c < len {
        c
    } else {
        len - 1
    }
}

/// `v` with both cursors pulled back into the lists of `s`.
pub open spec fn clamped(v: ScreenState, s: Session) -> ScreenState {
    ScreenState {
        active_cursor: clamp_index(v.active_cursor as int, s.active@.len() as int) as usize,
        completed_cursor: clamp_index(v.completed_cursor as int, s.completed@.len() as int) as usize,
        ..v
    }
}

/// A cursor at `c` in a list of `len` moved one step down or up, stopping at
/// the ends; an empty list puts it at 0.
pub open spec fn stepped(c: int, len: int, down: bool) -> int {
    if len == 0 {
        0
    } else if down {
        if c + 1 < len {
            c + 1
        } else {
            c
        }
    } else {
        if c > 0 {
            c - 1
        } else {
            c
        }
    }
}

/// The screen after a key in normal mode, before the cursors are clamped to
/// the lists the key left behind. `len` is the focused pane's length.
pub open spec fn normal_screen(v: ScreenState, code: KeyCode, len: int) -> ScreenState {
    let p = v.focused;
    let c = v.cursor(p) as int;
    if code == KeyCode::Char('q') {
        ScreenState { quit: true, ..v }
    } else if code == KeyCode::Char('j') || code == KeyCode::Down {
        v.with_cursor(p, stepped(c, len, true))
    } else if code == KeyCode::Char('k') || code == KeyCode::Up {
        v.with_cursor(p, stepped(c, len, false))
    } else if code == KeyCode::Char('h') || code == KeyCode::Left {
        ScreenState { focused: Pane::Active, ..v }
    } else if code == KeyCode::Char('l') || code == KeyCode::Right {
        ScreenState { focused: Pane::Completed, ..v }
    } else if code == KeyCode::Char('g') {
        v.with_cursor(p, 0)
    } else if code == KeyCode::Char('G') {
        v.with_cursor(p, if len > 0 { len - 1 } else { 0 })
    } else if code == KeyCode::Char('J') {
        if c + 1 < len {
            v.with_cursor(p, c + 1)
        } else {
            v
        }
    } else if code == KeyCode::Char('K') {
        if c > 0 {
            v.with_cursor(p, c - 1)
        } else {
            v
        }
    } else if code == KeyCode::Char('a') {
        ScreenState { mode: Mode::AddInput, ..v }
    } else if code == KeyCode::Char('?') {
        ScreenState { mode: Mode::Help, ..v }
    } else {
        v
    }
}

/// What a key in normal mode does to the session: toggle, delete or move
/// the task under the cursor, or nothing.
pub open spec fn normal_session(before: Session, after: Session, v: ScreenState, code: KeyCode) -> bool {
    let p = v.focused;
    let c = v.cursor(p) as int;
    let len = before.list(p).len();
    if code == KeyCode::Char(' ') || code == KeyCode::Char('x') {
        Session::toggled(before, after, p, c)
    } else if code == KeyCode::Char('d') {
        Session::deleted(before, after, p, c)
    } else if code == KeyCode::Char('J') {
        if c + 1 < len {
            Session::swapped(before, after, p, c, c + 1)
        } else {
            after == before
        }
    } else if code == KeyCode::Char('K') {
        if c > 0 {
            Session::swapped(before, after, p, c, c - 1)
        } else {
            after == before
        }
    } else {
        after == before
    }
}

/// Control characters (Unicode category Cc): U+0000 to U+001F and U+007F to
/// U+009F.
pub open spec fn control_char(c: char) -> bool {
    (c as u32) < 0x20 || (0x7f <= (c as u32) && (c as u32) <= 0x9f)
}

/// The add-task field after typing `code` into `text`: Backspace removes the
/// last character; a printable character is appended while the field stays
/// within the task byte cap; nothing else edits the text.
pub open spec fn typed(text: Seq<char>, code: KeyCode) -> Seq<char> {
    match code {
        KeyCode::Backspace => if text.len() > 0 {
            text.drop_last()
        } else {
            text
        },
        KeyCode::Char(ch) => if !control_char(ch) && encode_utf8(text.push(ch)).len()
            <= MAX_TASK_BYTES {
            text.push(ch)
        } else {
            text
        },
        _ => text,
    }
}

impl App {
    /// What a key does to the session.
    pub open spec fn key_session(self, after: Session, key: KeyEvent) -> bool {
        match self.screen.mode {
            Mode::Normal => normal_session(self.session, after, self.screen, key.code),
            Mode::AddInput => if key.code == KeyCode::Enter && self.input@.len() > 0 {
                Session::added(self.session, after, Pane::Active, self.input@)
            } else {
                after == self.session
            },
            Mode::Help => after == self.session,
        }
    }

    /// The add-task field after a key.
    pub open spec fn key_input(self, key: KeyEvent) -> Seq<char> {
        match self.screen.mode {
            Mode::Normal => if key.code == KeyCode::Char('a') {
                Seq::empty()
            } else {
                self.input@
            },
            Mode::AddInput => if key.code == KeyCode::Esc || key.code == KeyCode::Enter {
                Seq::empty()
            } else {
                typed(self.input@, key.code)
            },
            Mode::Help => self.input@,
        }
    }

    /// The screen after a key, given the session it left behind.
    pub open spec fn key_screen(self, after: Session, key: KeyEvent) -> ScreenState {
        let v = self.screen;
        match v.mode {
            Mode::Normal => clamped(
                normal_screen(v, key.code, self.session.list(v.focused).len() as int),
                after,
            ),
            Mode::AddInput => if key.code == KeyCode::Esc {
                ScreenState { mode: Mode::Normal, ..v }
            } else if key.code == KeyCode::Enter {
                clamped(ScreenState { mode: Mode::Normal, ..v }, after)
            } else {
                v
            },
            Mode::Help => if key.code == KeyCode::Null {
                v
            } else {
                ScreenState { mode: Mode::Normal, ..v }
            },
        }
    }

    /// What the loop must do after a key: save on `s` and pull on `p`, in
    /// normal mode.
    pub open spec fn key_request(self, key: KeyEvent) -> Request {
        if self.screen.mode == Mode::Normal && key.code == KeyCode::Char('s') {
            Request::Save
        } else if self.screen.mode == Mode::Normal && key.code == KeyCode::Char('p') {
            Request::Pull
        } else {
            Request::Continue
        }
    }

    /// The whole effect of a key.
    pub open spec fn key_step(self, after: App, key: KeyEvent, r: Request) -> bool {
        &&& self.key_session(after.session, key)
        &&& after.input@ == self.key_input(key)
        &&& after.screen == self.key_screen(after.session, key)
        &&& after.last_click == self.last_click
        &&& r == self.key_request(key)
    }
}

/// What the cell at `col`, `row` of a pane's rectangle shows: the border or
/// the empty area below the tasks is the pane itself; a spacer row and the
/// content row under it are the same task.
pub open spec fn hit_in(v: ScreenState, s: Session, pane: Pane, rect: Rect, col: int, row: int) -> Hit {
    let top = rect.y + 1;
    let bottom = rect.y + rect.height - 1;
    if row < top || row >= bottom || col == rect.x || col == rect.x + rect.width - 1 {
        Hit::Pane(pane)
    } else {
        let index = v.scroll(pane) + (row - top) / 2;
        if index < s.list(pane).len() {
            Hit::Task { pane, index: index as usize }
        } else {
            Hit::Pane(pane)
        }
    }
}

/// What a screen cell resolves to against the last frame's pane geometry.
pub open spec fn hit_at(v: ScreenState, s: Session, col: int, row: int) -> Option<Hit> {
    if v.pane_rects.active.holds(col, row) {
        Some(hit_in(v, s, Pane::Active, v.pane_rects.active, col, row))
    } else if v.pane_rects.completed.holds(col, row) {
        Some(hit_in(v, s, Pane::Completed, v.pane_rects.completed, col, row))
    } else {
        None
    }
}

impl App {
    /// What a left click does to the session: a double click on a task
    /// toggles it.
    pub open spec fn click_session(self, after: Session, col: int, row: int, now: u64) -> bool {
        match hit_at(self.screen, self.session, col, row) {
            Some(Hit::Task { pane, index }) => if pairs(
                self.last_click.pending(),
                (pane, index),
                now,
            ) {
                Session::toggled(self.session, after, pane, index as int)
            } else {
                after == self.session
            },
            _ => after == self.session,
        }
    }

    /// The screen after a left click: a click on a pane focuses it; on a task
    /// it also puts the cursor there.
    pub open spec fn click_screen(self, after: Session, col: int, row: int, now: u64) -> ScreenState {
        let v = self.screen;
        match hit_at(v, self.session, col, row) {
            None => v,
            Some(Hit::Pane(p)) => ScreenState { focused: p, ..v },
            Some(Hit::Task { pane, index }) => {
                let moved = ScreenState { focused: pane, ..v }.with_cursor(pane, index as int);
                if pairs(self.last_click.pending(), (pane, index), now) {
                    clamped(moved, after)
                } else {
                    moved
                }
            },
        }
    }

    /// The pending click after a left click: cleared by a click on a pane or
    /// by a completed double click, else the click on the task.
    pub open spec fn click_pending(self, col: int, row: int, now: u64) -> Option<
        (u64, (Pane, usize)),
    > {
        match hit_at(self.screen, self.session, col, row) {
            None => self.last_click.pending(),
            Some(Hit::Pane(p)) => None,
            Some(Hit::Task { pane, index }) => if pairs(
                self.last_click.pending(),
                (pane, index),
                now,
            ) {
                None
            } else {
                Some((now, (pane, index)))
            },
        }
    }

    /// Whether a mouse event reaches the click logic: a left press in
    /// normal mode.
    pub open spec fn is_click(self, m: MouseEvent) -> bool {
        self.screen.mode == Mode::Normal && m.kind == MouseKind::Down(MouseButton::Left)
    }

    /// What a mouse event does to the session.
    pub open spec fn mouse_session(self, after: Session, m: MouseEvent, now: u64) -> bool {
        if self.is_click(m) {
            self.click_session(after, m.column as int, m.row as int, now)
        } else {
            after == self.session
        }
    }

    /// The screen after a mouse event. The add-task field owns the screen
    /// while it is open; any press dismisses the help; the wheel scrolls the
    /// focused pane without moving its cursor.
    pub open spec fn mouse_screen(self, after: Session, m: MouseEvent, now: u64) -> ScreenState {
        let v = self.screen;
        let p = v.focused;
        match v.mode {
            Mode::AddInput => v,
            Mode::Help => if m.kind is Down {
                ScreenState { mode: Mode::Normal, ..v }
            } else {
                v
            },
            Mode::Normal => if m.kind == MouseKind::ScrollUp {
                v.with_scroll(p, if v.scroll(p) > 0 { v.scroll(p) - 1 } else { 0 })
            } else if m.kind == MouseKind::ScrollDown {
                v.with_scroll(p, if v.scroll(p) < usize::MAX { v.scroll(p) + 1 } else { v.scroll(p) as int })
            } else if m.kind == MouseKind::Down(MouseButton::Left) {
                self.click_screen(after, m.column as int, m.row as int, now)
            } else {
                v
            },
        }
    }

    /// The pending click after a mouse event.
    pub open spec fn mouse_pending(self, m: MouseEvent, now: u64) -> Option<(u64, (Pane, usize))> {
        if self.is_click(m) {
            self.click_pending(m.column as int, m.row as int, now)
        } else {
            self.last_click.pending()
        }
    }

    /// The whole effect of a mouse event.
    pub open spec fn mouse_step(self, after: App, m: MouseEvent, now: u64) -> bool {
        &&& self.mouse_session(after.session, m, now)
        &&& after.input@ == self.input@
        &&& after.screen == self.mouse_screen(after.session, m, now)
        &&& after.last_click.pending() == self.mouse_pending(m, now)
    }
}

/// The scroll offset that keeps a cursor visible in a pane showing
/// `visible` tasks of `len`: pulled up to the cursor, pushed down until the
/// cursor fits, and never past the end.
pub open spec fn pane_scroll(scroll: int, cursor: int, len: int, visible: int) -> int {
    let s1 = if cursor < scroll {
        cursor
    } else {
        scroll
    };
    let s2 = if visible > 0 && cursor >= s1 + visible {
        cursor - visible + 1
    } else {
        s1
    };
    let max = if visible == 0 || len <= visible {
        0
    } else {
        len - visible
    };
    if s2 > max {
        max
    } else {
        s2
    }
}

/// The furthest a pane showing `visible` tasks of `len` may scroll.
pub open spec fn max_scroll(len: int, visible: int) -> int {
    if visible == 0 || len <= visible {
        0
    } else {
        len - visible
    }
}

/// Both panes' scroll offsets made consistent with their cursors, for panes
/// `pane_height` rows tall.
pub open spec fn adjusted(v: ScreenState, s: Session, pane_height: u16) -> ScreenState {
    let vis = visible_tasks_spec(pane_height);
    ScreenState {
        active_scroll: pane_scroll(
            v.active_scroll as int,
            v.active_cursor as int,
            s.active@.len() as int,
            vis,
        ) as usize,
        completed_scroll: pane_scroll(
            v.completed_scroll as int,
            v.completed_cursor as int,
            s.completed@.len() as int,
            vis,
        ) as usize,
        ..v
    }
}

/// Both panes' scroll offsets bounded by the end, the cursors left alone.
pub open spec fn bounded(v: ScreenState, s: Session, pane_height: u16) -> ScreenState {
    let vis = visible_tasks_spec(pane_height);
    let ma = max_scroll(s.active@.len() as int, vis);
    let mc = max_scroll(s.completed@.len() as int, vis);
    ScreenState {
        active_scroll: (if v.active_scroll < ma {
            v.active_scroll as int
        } else {
            ma
        }) as usize,
        completed_scroll: (if v.completed_scroll < mc {
            v.completed_scroll as int
        } else {
            mc
        }) as usize,
        ..v
    }
}

/// Tasks a pane of `pane_height` rows shows.
pub open spec fn visible_tasks_spec(pane_height: u16) -> int {
    if pane_height >= 2 {
        (pane_height - 2) / 2
    } else {
        0
    }
}

impl App {
    /// The whole effect of one input event against panes `pane_height` rows
    /// tall: a key press (releases are ignored) re-syncs the scroll offsets
    /// to the cursors; a mouse event only bounds them; anything else does
    /// nothing.
    pub open spec fn event_step(self, after: App, e: Event, now: u64, pane_height: u16, r: Request) -> bool {
        match e {
            Event::Key(k) => if k.press {
                &&& self.key_session(after.session, k)
                &&& after.input@ == self.key_input(k)
                &&& after.screen == adjusted(
                    self.key_screen(after.session, k),
                    after.session,
                    pane_height,
                )
                &&& after.last_click == self.last_click
                &&& r == self.key_request(k)
            } else {
                &&& after.session == self.session
                &&& after.input@ == self.input@
                &&& after.screen == self.screen
                &&& after.last_click == self.last_click
                &&& r == Request::Continue
            },
            Event::Mouse(m) => {
                &&& self.mouse_session(after.session, m, now)
                &&& after.input@ == self.input@
                &&& after.screen == bounded(
                    self.mouse_screen(after.session, m, now),
                    after.session,
                    pane_height,
                )
                &&& after.last_click.pending() == self.mouse_pending(m, now)
                &&& r == Request::Continue
            },
            _ => {
                &&& after.session == self.session
                &&& after.input@ == self.input@
                &&& after.screen == self.screen
                &&& after.last_click == self.last_click
                &&& r == Request::Continue
            },
        }
    }
}

proof fn lemma_encode_drop_last(s: Seq<char>)
    requires
        s.len() > 0,
    ensures
        encode_utf8(s.drop_last()).len() <= encode_utf8(s).len(),
{
    assert(s =~= s.drop_last() + seq![s.last()]);
    lemma_encode_concat(s.drop_last(), seq![s.last()]);
}

/// Typing never takes the add-task field past the task byte cap: a field
/// within the cap stays within it whatever key comes.
pub proof fn lemma_typing_keeps_the_cap(text: Seq<char>, code: KeyCode)
    requires
        encode_utf8(text).len() <= MAX_TASK_BYTES,
    ensures
        encode_utf8(typed(text, code)).len() <= MAX_TASK_BYTES,
{
    if code == KeyCode::Backspace && text.len() > 0 {
        lemma_encode_drop_last(text);
    }
}

/// After a key in normal mode, each cursor sits on a task of its pane, or
/// at 0 when the pane is empty.
pub proof fn lemma_keys_keep_cursors_on_tasks(app: App, after: App, key: KeyEvent, r: Request)
    requires
        app.screen.mode == Mode::Normal,
        app.key_step(after, key, r),
    ensures
        after.screen.active_cursor < after.session.active@.len() || (after.screen.active_cursor
            == 0 && after.session.active@.len() == 0),
        after.screen.completed_cursor < after.session.completed@.len() || (
        after.screen.completed_cursor == 0 && after.session.completed@.len() == 0),
{
}

/// In normal mode `d` deletes the task under the focused pane's cursor and
/// nothing else: that pane loses exactly that task, the other pane and the
/// file name stay, and the session is marked unsaved. With the cursor past
/// the end (an empty pane) nothing changes.
pub proof fn lemma_d_deletes_the_task_under_the_cursor(app: App, after: App, key: KeyEvent, r: Request)
    requires
        app.screen.mode == Mode::Normal,
        key.code == KeyCode::Char('d'),
        app.key_step(after, key, r),
    ensures
        ({
            let p = app.screen.focused;
            let c = app.screen.cursor(p) as int;
            let l = app.session.list(p);
            &&& c < l.len() ==> {
                &&& after.session.list(p) == l.remove(c)
                &&& after.session.list(p.spec_other()) == app.session.list(p.spec_other())
                &&& after.session.filename == app.session.filename
                &&& after.session.dirty
            }
            &&& c >= l.len() ==> after.session == app.session
        }),
{
}

/// In normal mode Space and `x` move the task under the cursor to the end of
/// the other pane with its tick flipped; the rest of its pane keeps its
/// order.
pub proof fn lemma_space_moves_the_task_under_the_cursor(app: App, after: App, key: KeyEvent, r: Request)
    requires
        app.screen.mode == Mode::Normal,
        key.code == KeyCode::Char(' ') || key.code == KeyCode::Char('x'),
        app.key_step(after, key, r),
    ensures
        ({
            let p = app.screen.focused;
            let c = app.screen.cursor(p) as int;
            let l = app.session.list(p);
            &&& c < l.len() ==> {
                &&& after.session.list(p) == l.remove(c)
                &&& after.session.list(p.spec_other()) == app.session.list(p.spec_other()).push(
                    crate::model::Task { text: l[c].text, done: !l[c].done },
                )
                &&& after.session.dirty
            }
            &&& c >= l.len() ==> after.session == app.session
        }),
{
}

/// In normal mode `J` moves the task under the cursor one slot down: it
/// trades places with the next task and the cursor follows it. On the last
/// task it does nothing.
pub proof fn lemma_shift_j_moves_the_task_down(app: App, after: App, key: KeyEvent, r: Request)
    requires
        app.screen.mode == Mode::Normal,
        key.code == KeyCode::Char('J'),
        app.key_step(after, key, r),
    ensures
        ({
            let p = app.screen.focused;
            let c = app.screen.cursor(p) as int;
            let l = app.session.list(p);
            &&& c + 1 < l.len() ==> {
                &&& after.session.list(p).len() == l.len()
                &&& after.session.list(p)[c] == l[c + 1]
                &&& after.session.list(p)[c + 1] == l[c]
                &&& forall|i: int|
                    0 <= i < l.len() && i != c && i != c + 1 ==> after.session.list(p)[i] == l[i]
                &&& after.session.list(p.spec_other()) == app.session.list(p.spec_other())
                &&& after.screen.cursor(p) == c + 1
            }
            &&& c + 1 >= l.len() ==> after.session == app.session
        }),
{
    let p = app.screen.focused;
    let c = app.screen.cursor(p) as int;
    let l = app.session.list(p);
    if c + 1 < l.len() {
        assert(after.session.list(p) == l.update(c, l[c + 1]).update(c + 1, l[c]));
        assert(app.session.active.len() == app.session.active@.len());
        assert(app.session.completed.len() == app.session.completed@.len());
        match p {
            Pane::Active => {},
            Pane::Completed => {},
        }
    }
}

/// In normal mode `K` moves the task under the cursor one slot up: it
/// trades places with the previous task and the cursor follows it. On the
/// first task it does nothing.
pub proof fn lemma_shift_k_moves_the_task_up(app: App, after: App, key: KeyEvent, r: Request)
    requires
        app.screen.mode == Mode::Normal,
        key.code == KeyCode::Char('K'),
        app.key_step(after, key, r),
    ensures
        ({
            let p = app.screen.focused;
            let c = app.screen.cursor(p) as int;
            let l = app.session.list(p);
            &&& 0 < c < l.len() ==> {
                &&& after.session.list(p).len() == l.len()
                &&& after.session.list(p)[c] == l[c - 1]
                &&& after.session.list(p)[c - 1] == l[c]
                &&& forall|i: int|
                    0 <= i < l.len() && i != c && i != c - 1 ==> after.session.list(p)[i] == l[i]
                &&& after.session.list(p.spec_other()) == app.session.list(p.spec_other())
                &&& after.screen.cursor(p) == c - 1
            }
            &&& c == 0 ==> after.session == app.session
        }),
{
    let p = app.screen.focused;
    let c = app.screen.cursor(p) as int;
    let l = app.session.list(p);
    if 0 < c < l.len() {
        assert(after.session.list(p) == l.update(c, l[c - 1]).update(c - 1, l[c]));
    }
}

/// In normal mode the cursor keys move the focused pane's cursor one task
/// down (`j`, Down) or up (`k`, Up), stopping at the ends; `g` and `G` jump
/// to the first and last task. None of them changes the session or the
/// focus.
pub proof fn lemma_cursor_keys_move_the_cursor(app: App, after: App, key: KeyEvent, r: Request)
    requires
        app.screen.mode == Mode::Normal,
        app.key_step(after, key, r),
        app.screen.cursor(app.screen.focused) < app.session.list(app.screen.focused).len(),
    ensures
        ({
            let p = app.screen.focused;
            let c = app.screen.cursor(p) as int;
            let n = app.session.list(p).len() as int;
            let code = key.code;
            let moves = code == KeyCode::Char('j') || code == KeyCode::Down || code == KeyCode::Char('k')
                || code == KeyCode::Up || code == KeyCode::Char('g') || code == KeyCode::Char('G');
            &&& (code == KeyCode::Char('j') || code == KeyCode::Down) ==> after.screen.cursor(p) == if c
                + 1 < n {
                c + 1
            } else {
                c
            }
            &&& (code == KeyCode::Char('k') || code == KeyCode::Up) ==> after.screen.cursor(p) == if c
                > 0 {
                c - 1
            } else {
                0
            }
            &&& code == KeyCode::Char('g') ==> after.screen.cursor(p) == 0
            &&& code == KeyCode::Char('G') ==> after.screen.cursor(p) == n - 1
            &&& moves ==> {
                &&& after.session == app.session
                &&& after.screen.focused == p
            }
        }),
{
    let p = app.screen.focused;
    let code = key.code;
    if code == KeyCode::Char('j') || code == KeyCode::Down || code == KeyCode::Char('k')
        || code == KeyCode::Up || code == KeyCode::Char('g') || code == KeyCode::Char('G') {
        assert(app.session.active.len() == app.session.active@.len());
        assert(app.session.completed.len() == app.session.completed@.len());
        match p {
            Pane::Active => {},
            Pane::Completed => {},
        }
    }
}

/// In the add-task field, Enter with something typed appends one open task
/// to the end of the active pane, the completed pane untouched, and goes
/// back to normal mode with the field cleared; Esc goes back without adding
/// anything.
pub proof fn lemma_add_field_enter_and_esc(app: App, after: App, key: KeyEvent, r: Request)
    requires
        app.screen.mode == Mode::AddInput,
        app.key_step(after, key, r),
    ensures
        (key.code == KeyCode::Enter && app.input@.len() > 0) ==> {
            let l = app.session.active@;
            let m = after.session.active@;
            &&& m.len() == l.len() + 1
            &&& forall|k: int| 0 <= k < l.len() ==> m[k] == l[k]
            &&& !m[l.len() as int].done
            &&& after.session.completed@ == app.session.completed@
            &&& after.input@.len() == 0
            &&& after.screen.mode == Mode::Normal
        },
        key.code == KeyCode::Esc ==> {
            &&& after.session == app.session
            &&& after.input@.len() == 0
            &&& after.screen.mode == Mode::Normal
        },
        r == Request::Continue,
{
    if key.code == KeyCode::Enter && app.input@.len() > 0 {
        crate::session::lemma_add_appends_one_task(app.session, after.session, Pane::Active, app.input@);
    }
}

/// Bytes `c` takes in UTF-8.
fn utf8_width(c: char) -> (w: usize)
    ensures
        w == encode_utf8(seq![c]).len(),
        1 <= w <= 4,
{
    broadcast use vstd::utf8::char_is_scalar;
    proof {
        assert(seq![c].drop_first() =~= Seq::<char>::empty());
        assert(encode_utf8(seq![c]) == encode_scalar(c as u32) + encode_utf8(Seq::<char>::empty()));
    }
    let u = c as u32;
    if u <= 0x7f {
        1
    } else if u <= 0x7ff {
        2
    } else if u <= 0xffff {
        3
    } else {
        4
    }
}

fn is_control(c: char) -> (r: bool)
    ensures
        r == control_char(c),
{
    let u = c as u32;
    u < 0x20 || (0x7f <= u && u <= 0x9f)
}

/// The scroll offset that keeps the cursor visible and never passes the end.
pub fn clamp_pane(scroll: &mut usize, cursor: usize, len: usize, visible: usize)
    ensures
        *final(scroll) == pane_scroll(*old(scroll) as int, cursor as int, len as int, visible as int),
{
    if cursor < *scroll {
        *scroll = cursor;
    }
    if visible > 0 && cursor - *scroll >= visible {
        *scroll = cursor - visible + 1;
    }
    let max_scroll = if visible == 0 || len <= visible {
        0
    } else {
        len - visible
    };
    if *scroll > max_scroll {
        *scroll = max_scroll;
    }
}

/// After scrolling, a cursor inside its list is on screen: at or below the
/// first visible task and above the last visible row, and the pane is not
/// scrolled past its end.
pub proof fn lemma_scroll_keeps_cursor_visible(scroll: int, cursor: int, len: int, visible: int)
    requires
        0 <= scroll,
        0 <= cursor < len,
        visible > 0,
    ensures
        pane_scroll(scroll, cursor, len, visible) <= cursor < pane_scroll(scroll, cursor, len, visible)
            + visible,
        0 <= pane_scroll(scroll, cursor, len, visible) <= max_scroll(len, visible),
{
}

/// Whether the cell lies inside `rect`, computed without overflow.
fn contains(rect: Rect, col: u16, row: u16) -> (r: bool)
    ensures
        r == rect.holds(col as int, row as int),
{
    rect.width > 0 && rect.height > 0 && col >= rect.x && (col as u32) < rect.x as u32
        + rect.width as u32 && row >= rect.y && (row as u32) < rect.y as u32 + rect.height as u32
}

impl App {
    pub fn new(session: Session) -> (app: App)
        ensures
            app.session == session,
            app.input@.len() == 0,
            app.screen == (ScreenState {
                focused: Pane::Active,
                active_cursor: 0,
                completed_cursor: 0,
                active_scroll: 0,
                completed_scroll: 0,
                mode: Mode::Normal,
                quit: false,
                pane_rects: PaneRects {
                    active: Rect { x: 0, y: 0, width: 0, height: 0 },
                    completed: Rect { x: 0, y: 0, width: 0, height: 0 },
                },
            }),
            app.last_click.pending() is None,
    {
        App {
            session,
            input: String::new(),
            screen: ScreenState {
                focused: Pane::Active,
                active_cursor: 0,
                completed_cursor: 0,
                active_scroll: 0,
                completed_scroll: 0,
                mode: Mode::Normal,
                quit: false,
                pane_rects: PaneRects {
                    active: Rect { x: 0, y: 0, width: 0, height: 0 },
                    completed: Rect { x: 0, y: 0, width: 0, height: 0 },
                },
            },
            last_click: ClickTracker::default(),
        }
    }

    /// The overlay the mode calls for.
    pub fn overlay(&self) -> (o: Overlay<'_>)
        ensures
            self.screen.mode == Mode::Normal ==> o == Overlay::Off,
            self.screen.mode == Mode::Help ==> o == Overlay::Help,
            self.screen.mode == Mode::AddInput ==> (o matches Overlay::Input(t) && t@ == self.input@),
    {
        match self.screen.mode {
            Mode::Normal => Overlay::Off,
            Mode::AddInput => Overlay::Input(self.input.as_str()),
            Mode::Help => Overlay::Help,
        }
    }

    fn focused_len(&self) -> (n: usize)
        ensures
            n == self.session.list(self.screen.focused).len(),
    {
        self.session.tasks(self.screen.focused).len()
    }

    fn focused_cursor(&self) -> (c: usize)
        ensures
            c == self.screen.cursor(self.screen.focused),
    {
        match self.screen.focused {
            Pane::Active => self.screen.active_cursor,
            Pane::Completed => self.screen.completed_cursor,
        }
    }

    fn set_cursor(&mut self, pane: Pane, c: usize)
        ensures
            final(self).screen == old(self).screen.with_cursor(pane, c as int),
            final(self).session == old(self).session,
            final(self).input == old(self).input,
            final(self).last_click == old(self).last_click,
    {
        match pane {
            Pane::Active => self.screen.active_cursor = c,
            Pane::Completed => self.screen.completed_cursor = c,
        }
    }

    /// Pull both cursors back inside their lists.
    pub fn clamp_cursors(&mut self)
        ensures
            final(self).screen == clamped(old(self).screen, old(self).session),
            final(self).session == old(self).session,
            final(self).input == old(self).input,
            final(self).last_click == old(self).last_click,
    {
        let a = self.session.active.len();
        self.screen.active_cursor = if a == 0 {
            0
        } else if self.screen.active_cursor < a {
            self.screen.active_cursor
        } else {
            a - 1
        };
        let c = self.session.completed.len();
        self.screen.completed_cursor = if c == 0 {
            0
        } else if self.screen.completed_cursor < c {
            self.screen.completed_cursor
        } else {
            c - 1
        };
    }

    fn handle_normal_key(&mut self, code: KeyCode) -> (r: Request)
        requires
            old(self).screen.mode == Mode::Normal,
        ensures
            normal_session(old(self).session, final(self).session, old(self).screen, code),
            final(self).input@ == (if code == KeyCode::Char('a') {
                Seq::empty()
            } else {
                old(self).input@
            }),
            final(self).screen == clamped(
                normal_screen(
                    old(self).screen,
                    code,
                    old(self).session.list(old(self).screen.focused).len() as int,
                ),
                final(self).session,
            ),
            final(self).last_click == old(self).last_click,
            r == (if code == KeyCode::Char('s') {
                Request::Save
            } else if code == KeyCode::Char('p') {
                Request::Pull
            } else {
                Request::Continue
            }),
    {
        let pane = self.screen.focused;
        let len = self.focused_len();
        let c = self.focused_cursor();
        let mut r = Request::Continue;
        match code {
            KeyCode::Char('q') => self.screen.quit = true,
            KeyCode::Char('j') | KeyCode::Down => {
                let n = if len == 0 {
                    0
                } else if c < len && c + 1 < len {
                    c + 1
                } else {
                    c
                };
                self.set_cursor(pane, n);
            },
            KeyCode::Char('k') | KeyCode::Up => {
                let n = if len == 0 {
                    0
                } else if c > 0 {
                    c - 1
                } else {
                    c
                };
                self.set_cursor(pane, n);
            },
            KeyCode::Char('h') | KeyCode::Left => self.screen.focused = Pane::Active,
            KeyCode::Char('l') | KeyCode::Right => self.screen.focused = Pane::Completed,
            KeyCode::Char('g') => self.set_cursor(pane, 0),
            KeyCode::Char('G') => {
                let n = if len > 0 {
                    len - 1
                } else {
                    0
                };
                self.set_cursor(pane, n);
            },
            KeyCode::Char(' ') | KeyCode::Char('x') => self.session.toggle(pane, c),
            KeyCode::Char('d') => self.session.delete(pane, c),
            KeyCode::Char('s') => r = Request::Save,
            KeyCode::Char('p') => r = Request::Pull,
            KeyCode::Char('a') => {
                self.input = String::new();
                self.screen.mode = Mode::AddInput;
            },
            KeyCode::Char('J') => {
                if c < len && c + 1 < len {
                    self.session.swap(pane, c, c + 1);
                    self.set_cursor(pane, c + 1);
                }
            },
            KeyCode::Char('K') => {
                if c > 0 {
                    self.session.swap(pane, c, c - 1);
                    self.set_cursor(pane, c - 1);
                }
            },
            KeyCode::Char('?') => self.screen.mode = Mode::Help,
            _ => {},
        }
        self.clamp_cursors();
        r
    }

    fn handle_input_key(&mut self, code: KeyCode)
        requires
            old(self).screen.mode == Mode::AddInput,
        ensures
            (if code == KeyCode::Enter && old(self).input@.len() > 0 {
                Session::added(old(self).session, final(self).session, Pane::Active, old(self).input@)
            } else {
                final(self).session == old(self).session
            }),
            final(self).input@ == (if code == KeyCode::Esc || code == KeyCode::Enter {
                Seq::empty()
            } else {
                typed(old(self).input@, code)
            }),
            final(self).screen == (if code == KeyCode::Esc {
                ScreenState { mode: Mode::Normal, ..old(self).screen }
            } else if code == KeyCode::Enter {
                clamped(ScreenState { mode: Mode::Normal, ..old(self).screen }, final(self).session)
            } else {
                old(self).screen
            }),
            final(self).last_click == old(self).last_click,
    {
        match code {
            KeyCode::Esc => {
                self.screen.mode = Mode::Normal;
                self.input = String::new();
            },
            KeyCode::Enter => {
                if !self.input.as_str().is_empty() {
                    let mut text = String::new();
                    std::mem::swap(&mut text, &mut self.input);
                    self.session.add(Pane::Active, text.as_str());
                }
                self.input = String::new();
                self.screen.mode = Mode::Normal;
                self.clamp_cursors();
            },
            KeyCode::Backspace => {
                let _ = pop_char(&mut self.input);
            },
            KeyCode::Char(ch) => {
                let w = utf8_width(ch);
                let have = self.input.as_str().as_bytes().len();
                proof {
                    lemma_encode_concat(self.input@, seq![ch]);
                    assert(self.input@.push(ch) =~= self.input@ + seq![ch]);
                }
                if !is_control(ch) && have <= MAX_TASK_BYTES - w {
                    push_char(&mut self.input, ch);
                }
            },
            _ => {},
        }
    }

    /// Apply one key. Help is dismissed by any real key, which does not also
    /// act; in the add-task field keys edit the text; otherwise each key is
    /// a binding. Saving is left to the caller, through the result.
    pub fn handle_key(&mut self, key: KeyEvent) -> (r: Request)
        ensures
            old(self).key_step(*final(self), key, r),
    {
        match self.screen.mode {
            Mode::Help => {
                if key.code != KeyCode::Null {
                    self.screen.mode = Mode::Normal;
                }
                Request::Continue
            },
            Mode::AddInput => {
                self.handle_input_key(key.code);
                Request::Continue
            },
            Mode::Normal => self.handle_normal_key(key.code),
        }
    }

    /// After a pull that moved `moved` tasks into the session: focus the
    /// active pane with the cursor on the first task that arrived.
    pub fn land_pull(&mut self, moved: usize)
        ensures
            final(self).session == old(self).session,
            final(self).input == old(self).input,
            final(self).last_click == old(self).last_click,
            final(self).screen == clamped(
                ScreenState {
                    focused: Pane::Active,
                    active_cursor: (if old(self).session.active@.len() >= moved {
                        old(self).session.active@.len() - moved
                    } else {
                        0
                    }) as usize,
                    ..old(self).screen
                },
                old(self).session,
            ),
    {
        self.screen.focused = Pane::Active;
        self.screen.active_cursor = self.session.active.len().saturating_sub(moved);
        self.clamp_cursors();
    }

    /// Keep both panes' scroll offsets consistent with their cursors.
    /// `pane_height` is the full pane height including borders.
    pub fn adjust_scroll(&mut self, pane_height: u16)
        ensures
            final(self).screen == adjusted(old(self).screen, old(self).session, pane_height),
            final(self).session == old(self).session,
            final(self).input == old(self).input,
            final(self).last_click == old(self).last_click,
    {
        let visible = visible_tasks(pane_height);
        let a = self.session.active.len();
        let c = self.session.completed.len();
        clamp_pane(&mut self.screen.active_scroll, self.screen.active_cursor, a, visible);
        clamp_pane(&mut self.screen.completed_scroll, self.screen.completed_cursor, c, visible);
    }

    /// Bound the scroll offsets without dragging them back to the cursors:
    /// used after a wheel event, where the cursor deliberately stays put.
    pub fn clamp_scroll_only(&mut self, pane_height: u16)
        ensures
            final(self).screen == bounded(old(self).screen, old(self).session, pane_height),
            final(self).session == old(self).session,
            final(self).input == old(self).input,
            final(self).last_click == old(self).last_click,
    {
        let visible = visible_tasks(pane_height);
        let a = self.session.active.len();
        let c = self.session.completed.len();
        let ma = if visible == 0 || a <= visible {
            0
        } else {
            a - visible
        };
        let mc = if visible == 0 || c <= visible {
            0
        } else {
            c - visible
        };
        if self.screen.active_scroll >= ma {
            self.screen.active_scroll = ma;
        }
        if self.screen.completed_scroll >= mc {
            self.screen.completed_scroll = mc;
        }
    }

    /// Resolve a screen cell against the last frame's pane geometry.
    pub fn hit_test(&self, col: u16, row: u16) -> (h: Option<Hit>)
        ensures
            h == hit_at(self.screen, self.session, col as int, row as int),
    {
        let rects = self.screen.pane_rects;
        let (pane, rect) = if contains(rects.active, col, row) {
            (Pane::Active, rects.active)
        } else if contains(rects.completed, col, row) {
            (Pane::Completed, rects.completed)
        } else {
            return None;
        };
        let top = rect.y as u32 + 1;
        let bottom = rect.y as u32 + rect.height as u32 - 1;
        let (c, r) = (col as u32, row as u32);
        if r < top || r >= bottom || c == rect.x as u32 || c == rect.x as u32 + rect.width as u32
            - 1 {
            return Some(Hit::Pane(pane));
        }
        let scroll = match pane {
            Pane::Active => self.screen.active_scroll,
            Pane::Completed => self.screen.completed_scroll,
        };
        let offset = ((r - top) / 2) as usize;
        let len = self.session.tasks(pane).len();
        if offset < len && scroll < len - offset {
            Some(Hit::Task { pane, index: scroll + offset })
        } else {
            Some(Hit::Pane(pane))
        }
    }

    fn handle_click(&mut self, col: u16, row: u16, now: u64)
        requires
            old(self).screen.mode == Mode::Normal,
        ensures
            old(self).click_session(final(self).session, col as int, row as int, now),
            final(self).input == old(self).input,
            final(self).screen == old(self).click_screen(
                final(self).session,
                col as int,
                row as int,
                now,
            ),
            final(self).last_click.pending() == old(self).click_pending(col as int, row as int, now),
    {
        let hit = match self.hit_test(col, row) {
            Some(h) => h,
            None => return,
        };
        match hit {
            Hit::Pane(pane) => {
                self.screen.focused = pane;
                self.last_click.reset();
            },
            Hit::Task { pane, index } => {
                let is_double = self.last_click.click((pane, index), now);
                self.screen.focused = pane;
                self.set_cursor(pane, index);
                if is_double {
                    self.session.toggle(pane, index);
                    self.clamp_cursors();
                }
            },
        }
    }

    fn scroll_focused(&mut self, down: bool)
        ensures
            final(self).screen == old(self).screen.with_scroll(
                old(self).screen.focused,
                if down {
                    if old(self).screen.scroll(old(self).screen.focused) < usize::MAX {
                        old(self).screen.scroll(old(self).screen.focused) + 1
                    } else {
                        old(self).screen.scroll(old(self).screen.focused) as int
                    }
                } else if old(self).screen.scroll(old(self).screen.focused) > 0 {
                    old(self).screen.scroll(old(self).screen.focused) - 1
                } else {
                    0
                },
            ),
            final(self).session == old(self).session,
            final(self).input == old(self).input,
            final(self).last_click == old(self).last_click,
    {
        match self.screen.focused {
            Pane::Active => {
                self.screen.active_scroll = if down {
                    self.screen.active_scroll.saturating_add(1)
                } else {
                    self.screen.active_scroll.saturating_sub(1)
                };
            },
            Pane::Completed => {
                self.screen.completed_scroll = if down {
                    self.screen.completed_scroll.saturating_add(1)
                } else {
                    self.screen.completed_scroll.saturating_sub(1)
                };
            },
        }
    }

    /// Apply one mouse event. `now` is the event's time in nanoseconds on a
    /// monotonic clock, for double-click timing.
    pub fn handle_mouse(&mut self, m: MouseEvent, now: u64)
        ensures
            old(self).mouse_step(*final(self), m, now),
    {
        match self.screen.mode {
            Mode::AddInput => {},
            Mode::Help => {
                if let MouseKind::Down(_) = m.kind {
                    self.screen.mode = Mode::Normal;
                }
            },
            Mode::Normal => match m.kind {
                MouseKind::ScrollUp => self.scroll_focused(false),
                MouseKind::ScrollDown => self.scroll_focused(true),
                MouseKind::Down(MouseButton::Left) => self.handle_click(m.column, m.row, now),
                _ => {},
            },
        }
    }

    /// Whether leaving the session screen must save first: exactly when the
    /// session holds changes that are not on disk yet.
    pub fn save_on_exit(&self) -> (r: bool)
        ensures
            r == self.session.dirty,
    {
        self.session.dirty
    }

    /// Apply one input event against panes `pane_height` rows tall.
    pub fn handle_event(&mut self, e: Event, now: u64, pane_height: u16) -> (r: Request)
        ensures
            old(self).event_step(*final(self), e, now, pane_height, r),
    {
        match e {
            Event::Key(k) => {
                if k.press {
                    let r = self.handle_key(k);
                    self.adjust_scroll(pane_height);
                    r
                } else {
                    Request::Continue
                }
            },
            Event::Mouse(m) => {
                self.handle_mouse(m, now);
                self.clamp_scroll_only(pane_height);
                Request::Continue
            },
            _ => Request::Continue,
        }
    }
}

} // verus!
