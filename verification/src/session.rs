//! An open session: its tasks, the edits made to them, and pulling open
//! tasks across from a past session.

use vstd::prelude::*;
use vstd::utf8::*;
use crate::markdown::{
    ParseError, ParsedView, lemma_parsed_round_trips, lemma_serialize_then_parse, no_trailing_cr, parse,
    round_trips, serialize, spec_parse, spec_serialize, task_views, with_done,
};
use crate::storage::{every_candidate_taken, file_stem, first_free_name, format_file_stem, unique_filename, FILE_EXTENSION};
use std::path::Path;
use crate::model::{
    MAX_TASK_BYTES, Pane, Task, TaskView, Timestamp, is_boundary_truncation,
    truncate_on_char_boundary,
};

verus! {

/// All in-memory state for an open session.
#[derive(Debug, Clone, PartialEq, Eq)]
pub struct Session {
    /// Basename, not a full path. Reassigned when a session is resumed.
    pub filename: String,
    pub timestamp: Option<Timestamp>,
    pub active: Vec<Task>,
    pub completed: Vec<Task>,
    /// True when in-memory state diverges from what is on disk.
    pub dirty: bool,
}

/// Exchange the tasks at `a` and `b`.
fn swap_tasks(v: &mut Vec<Task>, a: usize, b: usize)
    requires
        a != b,
        a < old(v)@.len(),
        b < old(v)@.len(),
    ensures
        final(v)@ == old(v)@.update(a as int, old(v)@[b as int]).update(b as int, old(v)@[a as int]),
{
    let (lo, hi) = if a < b {
        (a, b)
    } else {
        (b, a)
    };
    let ghost orig = v@;
    let t_hi = v.remove(hi);
    let t_lo = v.remove(lo);
    v.insert(lo, t_hi);
    v.insert(hi, t_lo);
    proof {
        assert(v@ =~= orig.update(a as int, orig[b as int]).update(b as int, orig[a as int]));
    }
}

/// Failure to read a session file back.
#[derive(Debug)]
pub enum LoadError {
    Io(std::io::Error),
    Parse(ParseError),
}

/// Failure to write a session back to disk.
#[derive(Debug)]
pub enum SaveError {
    Io(std::io::Error),
}

/// Failure to resume a previously saved session. Each variant names the file
/// it was working on.
#[derive(Debug)]
pub enum ResumeError {
    Pick { source: std::io::Error },
    Rename { from: String, to: String, source: std::io::Error },
    Load { name: String, source: LoadError },
    Rewrite { name: String, source: SaveError },
}

/// Failure to pull tasks out of a past session. `SaveSource` reports partial
/// success: the tasks are already in the current session and on disk.
#[derive(Debug)]
pub enum PullError {
    LoadSource { name: String, source: LoadError },
    SaveTarget { source: SaveError },
    SaveSource { name: String, source: SaveError },
}

/// A file to write: its name in the storage directory, and its contents.
#[derive(Debug, Clone, PartialEq, Eq)]
pub struct PendingWrite {
    pub filename: String,
    pub contents: String,
}

/// The file form of a session's tasks and timestamp.
pub open spec fn session_bytes(s: Session) -> Seq<u8> {
    spec_serialize(s.timestamp, task_views(s.active@), task_views(s.completed@))
}

/// Build an empty session with a unique filename in `dir`: the first name
/// `unique_filename` finds free for the timestamp's file stem and `.md`.
/// Nothing is written until the first save.
pub fn create_new(dir: &Path, ts: Timestamp) -> (r: std::io::Result<Session>)
    ensures
        match r {
            Ok(s) => {
                &&& exists|stem: &str|
                    stem@ == file_stem(ts) && #[trigger] first_free_name(dir, stem, FILE_EXTENSION, s.filename@)
                &&& s.timestamp == Some(ts)
                &&& s.active@.len() == 0
                &&& s.completed@.len() == 0
                &&& !s.dirty
            },
            Err(_) => exists|stem: &str|
                stem@ == file_stem(ts) && #[trigger] every_candidate_taken(dir, stem, FILE_EXTENSION),
        },
{
    let stem = format_file_stem(ts);
    let stem_str = stem.as_str();
    match unique_filename(dir, stem_str, FILE_EXTENSION) {
        Ok(filename) => {
            let s = Session { filename, timestamp: Some(ts), active: Vec::new(), completed: Vec::new(), dirty: false };
            assert(stem_str@ == file_stem(ts) && first_free_name(dir, stem_str, FILE_EXTENSION, s.filename@));
            Ok(s)
        },
        Err(e) => {
            assert(every_candidate_taken(dir, stem_str, FILE_EXTENSION));
            Err(e)
        },
    }
}

impl Session {
    /// The session stored in `filename` with the given contents: its
    /// timestamp and tasks as the file states them, nothing unsaved.
    pub fn from_contents(filename: &str, contents: &str) -> (r: Result<Session, LoadError>)
        ensures
            match spec_parse(encode_utf8(contents@)) {
                Ok(p) => (r matches Ok(s) && s.filename@ == filename@ && s.timestamp == p.timestamp
                    && task_views(s.active@) == p.active && task_views(s.completed@) == p.completed
                    && !s.dirty),
                Err(e) => (r matches Err(LoadError::Parse(pe)) && pe == e),
            },
    {
        match parse(contents) {
            Ok(parsed) => Ok(
                Session {
                    filename: filename.to_owned(),
                    timestamp: parsed.timestamp,
                    active: parsed.active,
                    completed: parsed.completed,
                    dirty: false,
                },
            ),
            Err(e) => Err(LoadError::Parse(e)),
        }
    }

    /// What saving writes: the canonical file for this session.
    pub fn contents(&self) -> (c: String)
        ensures
            encode_utf8(c@) == session_bytes(*self),
    {
        serialize(self.timestamp, self.active.as_slice(), self.completed.as_slice())
    }

    /// Record that the file on disk now matches this session.
    pub fn mark_saved(&mut self)
        ensures
            *final(self) == (Session { dirty: false, ..*old(self) }),
    {
        self.dirty = false;
    }

    /// The tasks of `pane`.
    pub open spec fn list(self, pane: Pane) -> Seq<Task> {
        match pane {
            Pane::Active => self.active@,
            Pane::Completed => self.completed@,
        }
    }

    /// `after` is `before` with only the list of `pane` changed, to `tasks`,
    /// and the dirty flag set to `dirty`.
    pub open spec fn changed_to(
        before: Session,
        after: Session,
        pane: Pane,
        tasks: Seq<Task>,
        dirty: bool,
    ) -> bool {
        &&& after.filename == before.filename
        &&& after.timestamp == before.timestamp
        &&& after.dirty == dirty
        &&& after.list(pane) == tasks
        &&& after.list(pane.spec_other()) == before.list(pane.spec_other())
    }

    /// `after` is `before` with `text` appended to `pane`, as `add` does it:
    /// nothing for empty text, else the text cut to the byte cap on a
    /// character boundary, ticked exactly in the completed pane.
    pub open spec fn added(before: Session, after: Session, pane: Pane, text: Seq<char>) -> bool {
        &&& text.len() == 0 ==> after == before
        &&& text.len() > 0 ==> exists|t: Task|
            {
                &&& is_boundary_truncation(
                    encode_utf8(t.text@),
                    encode_utf8(text),
                    MAX_TASK_BYTES as int,
                )
                &&& t.done == (pane == Pane::Completed)
                &&& Session::changed_to(before, after, pane, before.list(pane).push(t), true)
            }
    }

    /// `after` is `before` with the task at `index` of `pane` removed; an
    /// index out of range changes nothing.
    pub open spec fn deleted(before: Session, after: Session, pane: Pane, index: int) -> bool {
        &&& index >= before.list(pane).len() ==> after == before
        &&& 0 <= index < before.list(pane).len() ==> Session::changed_to(
            before,
            after,
            pane,
            before.list(pane).remove(index),
            true,
        )
    }

    /// `after` is `before` with the task at `index` of `from` moved to the
    /// end of the other pane, its `done` flag flipped; an index out of range
    /// changes nothing.
    pub open spec fn toggled(before: Session, after: Session, from: Pane, index: int) -> bool {
        &&& index >= before.list(from).len() ==> after == before
        &&& 0 <= index < before.list(from).len() ==> {
            let t = before.list(from)[index];
            &&& after.filename == before.filename
            &&& after.timestamp == before.timestamp
            &&& after.dirty
            &&& after.list(from) == before.list(from).remove(index)
            &&& after.list(from.spec_other()) == before.list(from.spec_other()).push(
                Task { text: t.text, done: !t.done },
            )
        }
    }

    /// `after` is `before` with the tasks at `a` and `b` of `pane` exchanged;
    /// equal indices or one out of range change nothing.
    pub open spec fn swapped(before: Session, after: Session, pane: Pane, a: int, b: int) -> bool {
        let l = before.list(pane);
        &&& (a == b || a >= l.len() || b >= l.len()) ==> after == before
        &&& (a != b && 0 <= a < l.len() && 0 <= b < l.len()) ==> Session::changed_to(
            before,
            after,
            pane,
            l.update(a, l[b]).update(b, l[a]),
            true,
        )
    }

    pub fn tasks(&self, pane: Pane) -> (r: &[Task])
        ensures
            r@ == self.list(pane),
    {
        match pane {
            Pane::Active => self.active.as_slice(),
            Pane::Completed => self.completed.as_slice(),
        }
    }

    pub fn tasks_mut(&mut self, pane: Pane) -> (r: &mut Vec<Task>)
        ensures
            *r == match pane {
                Pane::Active => old(self).active,
                Pane::Completed => old(self).completed,
            },
            Session::changed_to(*old(self), *final(self), pane, final(r)@, old(self).dirty),
    {
        match pane {
            Pane::Active => &mut self.active,
            Pane::Completed => &mut self.completed,
        }
    }

    /// Append a task to `pane`: ticked in the completed pane, open in the
    /// active one. Empty text is ignored; long text is cut to the byte cap
    /// on a character boundary.
    pub fn add(&mut self, pane: Pane, text: &str)
        ensures
            Session::added(*old(self), *final(self), pane, text@),
    {
        if text.is_empty() {
            return;
        }
        let text = truncate_on_char_boundary(text, MAX_TASK_BYTES).to_owned();
        let done = pane == Pane::Completed;
        let task = Task { text, done };
        let ghost added = task;
        match pane {
            Pane::Active => self.active.push(task),
            Pane::Completed => self.completed.push(task),
        }
        self.dirty = true;
        proof {
            assert(Session::changed_to(
                *old(self),
                *self,
                pane,
                old(self).list(pane).push(added),
                true,
            ));
        }
    }

    /// Remove the task at `index`. Out of range is a no-op.
    pub fn delete(&mut self, pane: Pane, index: usize)
        ensures
            Session::deleted(*old(self), *final(self), pane, index as int),
    {
        match pane {
            Pane::Active => {
                if index >= self.active.len() {
                    return;
                }
                self.active.remove(index);
            },
            Pane::Completed => {
                if index >= self.completed.len() {
                    return;
                }
                self.completed.remove(index);
            },
        }
        self.dirty = true;
    }

    /// Move the task at `index` to the end of the other pane, flipping its
    /// `done` flag. Out of range is a no-op.
    pub fn toggle(&mut self, from: Pane, index: usize)
        ensures
            Session::toggled(*old(self), *final(self), from, index as int),
    {
        match from {
            Pane::Active => {
                if index >= self.active.len() {
                    return;
                }
                let mut task = self.active.remove(index);
                task.done = !task.done;
                self.completed.push(task);
            },
            Pane::Completed => {
                if index >= self.completed.len() {
                    return;
                }
                let mut task = self.completed.remove(index);
                task.done = !task.done;
                self.active.push(task);
            },
        }
        self.dirty = true;
    }

    /// Swap two slots in the same pane. No-op if either index is out of
    /// range or they are equal.
    pub fn swap(&mut self, pane: Pane, a: usize, b: usize)
        ensures
            Session::swapped(*old(self), *final(self), pane, a as int, b as int),
    {
        if a == b {
            return;
        }
        match pane {
            Pane::Active => {
                if a >= self.active.len() || b >= self.active.len() {
                    return;
                }
                swap_tasks(&mut self.active, a, b);
            },
            Pane::Completed => {
                if a >= self.completed.len() || b >= self.completed.len() {
                    return;
                }
                swap_tasks(&mut self.completed, a, b);
            },
        }
        self.dirty = true;
    }
}


/// Deleting the task at `index` of a pane shortens that pane by one: the
/// tasks before it stay where they were and those after it move up one
/// slot. The other pane, the file name and the timestamp stay; the session
/// is marked unsaved. An index past the end changes nothing.
pub proof fn lemma_delete_removes_one_task(before: Session, after: Session, pane: Pane, index: int)
    requires
        0 <= index,
        Session::deleted(before, after, pane, index),
    ensures
        ({
            let l = before.list(pane);
            let m = after.list(pane);
            &&& index < l.len() ==> {
                &&& m.len() == l.len() - 1
                &&& forall|k: int| 0 <= k < index ==> m[k] == l[k]
                &&& forall|k: int| index <= k < m.len() ==> m[k] == l[k + 1]
                &&& after.list(pane.spec_other()) == before.list(pane.spec_other())
                &&& after.filename == before.filename
                &&& after.timestamp == before.timestamp
                &&& after.dirty
            }
            &&& index >= l.len() ==> after == before
        }),
{
}

/// Toggling the task at `index` takes it out of its pane, the rest keeping
/// their order, and puts it at the end of the other pane with its tick
/// flipped and its text unchanged.
pub proof fn lemma_toggle_moves_one_task_across(before: Session, after: Session, from: Pane, index: int)
    requires
        0 <= index < before.list(from).len(),
        Session::toggled(before, after, from, index),
    ensures
        ({
            let l = before.list(from);
            let m = after.list(from);
            let o = before.list(from.spec_other());
            let n = after.list(from.spec_other());
            &&& m.len() == l.len() - 1
            &&& forall|k: int| 0 <= k < index ==> m[k] == l[k]
            &&& forall|k: int| index <= k < m.len() ==> m[k] == l[k + 1]
            &&& n.len() == o.len() + 1
            &&& forall|k: int| 0 <= k < o.len() ==> n[k] == o[k]
            &&& n[o.len() as int].text == l[index].text
            &&& n[o.len() as int].done == !l[index].done
            &&& after.dirty
        }),
{
}

/// Swapping two tasks of a pane exchanges exactly those two; every other
/// task of the pane, and the other pane, stays.
pub proof fn lemma_swap_exchanges_two_tasks(before: Session, after: Session, pane: Pane, a: int, b: int)
    requires
        0 <= a < before.list(pane).len(),
        0 <= b < before.list(pane).len(),
        a != b,
        Session::swapped(before, after, pane, a, b),
    ensures
        ({
            let l = before.list(pane);
            let m = after.list(pane);
            &&& m.len() == l.len()
            &&& m[a] == l[b]
            &&& m[b] == l[a]
            &&& forall|k: int| 0 <= k < l.len() && k != a && k != b ==> m[k] == l[k]
            &&& after.list(pane.spec_other()) == before.list(pane.spec_other())
            &&& after.dirty
        }),
{
}

/// Adding non-empty text appends exactly one task at the end of the pane,
/// ticked exactly in the completed pane, and leaves the rest of the session
/// as it was.
pub proof fn lemma_add_appends_one_task(before: Session, after: Session, pane: Pane, text: Seq<char>)
    requires
        text.len() > 0,
        Session::added(before, after, pane, text),
    ensures
        ({
            let l = before.list(pane);
            let m = after.list(pane);
            &&& m.len() == l.len() + 1
            &&& forall|k: int| 0 <= k < l.len() ==> m[k] == l[k]
            &&& m[l.len() as int].done == (pane == Pane::Completed)
            &&& after.list(pane.spec_other()) == before.list(pane.spec_other())
            &&& after.dirty
        }),
{
}

/// Adding a task and then deleting the task at the end of the same pane
/// gives back the lists the session had.
pub proof fn lemma_add_then_delete_restores(
    s0: Session,
    s1: Session,
    s2: Session,
    pane: Pane,
    text: Seq<char>,
)
    requires
        text.len() > 0,
        Session::added(s0, s1, pane, text),
        Session::deleted(s1, s2, pane, s0.list(pane).len() as int),
    ensures
        s2.list(pane) == s0.list(pane),
        s2.list(pane.spec_other()) == s0.list(pane.spec_other()),
        s2.filename == s0.filename,
        s2.timestamp == s0.timestamp,
{
    let t = choose|t: Task|
        {
            &&& is_boundary_truncation(encode_utf8(t.text@), encode_utf8(text), MAX_TASK_BYTES as int)
            &&& t.done == (pane == Pane::Completed)
            &&& Session::changed_to(s0, s1, pane, s0.list(pane).push(t), true)
        };
    assert(s0.list(pane).push(t).remove(s0.list(pane).len() as int) =~= s0.list(pane));
}

/// Whether a pull naming `tasks` takes entry `i` of `src`: it is in range,
/// still open, and named with the text it holds now.
pub open spec fn pull_takes(src: Seq<Task>, tasks: Seq<(usize, String)>, i: int) -> bool {
    &&& 0 <= i < src.len()
    &&& !src[i].done
    &&& exists|k: int| 0 <= k < tasks.len() && tasks[k].0 == i && tasks[k].1@ == src[i].text@
}

/// The tasks among the first `n` of `src` that a pull takes, in order.
pub open spec fn pulled(src: Seq<Task>, tasks: Seq<(usize, String)>, n: nat) -> Seq<Task>
    decreases n,
{
    if n == 0 {
        Seq::empty()
    } else {
        let r = pulled(src, tasks, (n - 1) as nat);
        if pull_takes(src, tasks, n - 1) {
            r.push(src[n - 1])
        } else {
            r
        }
    }
}

/// The tasks among the first `n` of `src` that a pull leaves, in order.
pub open spec fn left_behind(src: Seq<Task>, tasks: Seq<(usize, String)>, n: nat) -> Seq<Task>
    decreases n,
{
    if n == 0 {
        Seq::empty()
    } else {
        let r = left_behind(src, tasks, (n - 1) as nat);
        if pull_takes(src, tasks, n - 1) {
            r
        } else {
            r.push(src[n - 1])
        }
    }
}

/// `ts` with every `done` flag set to `done`.
pub open spec fn marked(ts: Seq<Task>, done: bool) -> Seq<Task> {
    Seq::new(ts.len(), |i: int| Task { text: ts[i].text, done })
}

/// Whether `tasks` names entry `i` with `text`.
fn is_named(tasks: &[(usize, String)], i: usize, text: &String) -> (r: bool)
    ensures
        r == exists|k: int| 0 <= k < tasks@.len() && tasks@[k].0 == i && tasks@[k].1@ == text@,
{
    let mut k: usize = 0;
    while k < tasks.len()
        invariant
            k <= tasks@.len(),
            forall|j: int| 0 <= j < k ==> !(tasks@[j].0 == i && tasks@[j].1@ == text@),
        decreases tasks@.len() - k,
    {
        if tasks[k].0 == i && tasks[k].1 == *text {
            return true;
        }
        k += 1;
    }
    false
}

/// A copy of a task (`String::clone` keeps the text).
fn copy_task(t: &Task, done: bool) -> (r: Task)
    ensures
        r == (Task { text: t.text, done }),
{
    Task { text: t.text.clone(), done }
}

/// Move the tasks named by `tasks` out of `source.active` and into
/// `target.active`, leaving a ticked copy behind in `source.completed`.
/// Returns how many moved.
///
/// Each entry is `(index, text)` because the index was computed against a
/// snapshot: an entry is honoured only when the task at that index is still
/// open and still holds that text. Entries may come unsorted, duplicated or
/// out of range; the taken tasks arrive in the source's order.
pub fn pull_tasks(source: &mut Session, target: &mut Session, tasks: &[(usize, String)]) -> (moved:
    usize)
    ensures
        ({
            let src = old(source).active@;
            let took = pulled(src, tasks@, src.len());
            &&& moved == took.len()
            &&& final(source).active@ == left_behind(src, tasks@, src.len())
            &&& final(source).completed@ == old(source).completed@ + marked(took, true)
            &&& final(target).active@ == old(target).active@ + marked(took, false)
            &&& final(target).completed@ == old(target).completed@
            &&& final(source).filename == old(source).filename
            &&& final(source).timestamp == old(source).timestamp
            &&& final(target).filename == old(target).filename
            &&& final(target).timestamp == old(target).timestamp
            &&& final(source).dirty == (old(source).dirty || moved > 0)
            &&& final(target).dirty == (old(target).dirty || moved > 0)
        }),
{
    let ghost src = source.active@;
    let n = source.active.len();
    let mut kept: Vec<Task> = Vec::new();
    let mut took: Vec<Task> = Vec::new();
    let mut i: usize = 0;
    while i < n
        invariant
            n == src.len(),
            src == source.active@,
            i <= n,
            kept@ == left_behind(src, tasks@, i as nat),
            took@ == pulled(src, tasks@, i as nat),
            took@.len() <= i,
        decreases n - i,
    {
        let t = &source.active[i];
        if !t.done && is_named(tasks, i, &t.text) {
            took.push(copy_task(t, t.done));
        } else {
            kept.push(copy_task(t, t.done));
        }
        i += 1;
    }
    let moved = took.len();
    let mut j: usize = 0;
    let ghost tgt0 = target.active@;
    let ghost done0 = source.completed@;
    while j < moved
        invariant
            moved == took@.len(),
            j <= moved,
            target.active@ == tgt0 + marked(took@.take(j as int), false),
            source.completed@ == done0 + marked(took@.take(j as int), true),
            source.filename == old(source).filename,
            source.timestamp == old(source).timestamp,
            source.dirty == old(source).dirty,
            target.filename == old(target).filename,
            target.timestamp == old(target).timestamp,
            target.dirty == old(target).dirty,
            target.completed@ == old(target).completed@,
            tgt0 == old(target).active@,
            done0 == old(source).completed@,
        decreases moved - j,
    {
        let t = &took[j];
        target.active.push(copy_task(t, false));
        source.completed.push(copy_task(t, true));
        proof {
            assert(marked(took@.take(j + 1), false) =~= marked(took@.take(j as int), false).push(
                Task { text: took@[j as int].text, done: false },
            ));
            assert(marked(took@.take(j + 1), true) =~= marked(took@.take(j as int), true).push(
                Task { text: took@[j as int].text, done: true },
            ));
        }
        j += 1;
    }
    proof {
        assert(took@.take(moved as int) =~= took@);
    }
    source.active = kept;
    if moved > 0 {
        source.dirty = true;
        target.dirty = true;
    }
    moved
}

proof fn lemma_pull_split_len(src: Seq<Task>, tasks: Seq<(usize, String)>, n: nat)
    requires
        n <= src.len(),
    ensures
        pulled(src, tasks, n).len() + left_behind(src, tasks, n).len() == n,
    decreases n,
{
    if n > 0 {
        lemma_pull_split_len(src, tasks, (n - 1) as nat);
    }
}

/// A pull moves tasks but never loses one from the source: the source's
/// active and completed lists together hold as many tasks as before.
pub proof fn lemma_pull_keeps_source_size(src: Seq<Task>, done: Seq<Task>, tasks: Seq<(usize, String)>)
    ensures
        left_behind(src, tasks, src.len()).len() + (done + marked(
            pulled(src, tasks, src.len()),
            true,
        )).len() == src.len() + done.len(),
{
    lemma_pull_split_len(src, tasks, src.len());
}

proof fn lemma_left_behind_done(src: Seq<Task>, tasks: Seq<(usize, String)>, n: nat)
    requires
        n <= src.len(),
        forall|i: int|
            0 <= i < src.len() && !(#[trigger] src[i]).done ==> exists|k: int|
                0 <= k < tasks.len() && tasks[k].0 == i && tasks[k].1@ == src[i].text@,
    ensures
        forall|j: int|
            0 <= j < left_behind(src, tasks, n).len() ==> (#[trigger] left_behind(
                src,
                tasks,
                n,
            )[j]).done,
    decreases n,
{
    if n > 0 {
        lemma_left_behind_done(src, tasks, (n - 1) as nat);
        let r = left_behind(src, tasks, (n - 1) as nat);
        if !pull_takes(src, tasks, n - 1) {
            assert(src[n - 1].done);
            assert forall|j: int| 0 <= j < r.push(src[n - 1]).len() implies (#[trigger] r.push(
                src[n - 1],
            )[j]).done by {
                if j < r.len() {
                    assert(r.push(src[n - 1])[j] == r[j]);
                }
            }
        }
    }
}

/// Draining a session: a pull that names every open task of the source, each
/// with its current text, leaves nothing open in the source's active list.
pub proof fn lemma_pull_everything_drains(src: Seq<Task>, tasks: Seq<(usize, String)>)
    requires
        forall|i: int|
            0 <= i < src.len() && !(#[trigger] src[i]).done ==> exists|k: int|
                0 <= k < tasks.len() && tasks[k].0 == i && tasks[k].1@ == src[i].text@,
    ensures
        forall|j: int|
            0 <= j < left_behind(src, tasks, src.len()).len() ==> (#[trigger] left_behind(
                src,
                tasks,
                src.len(),
            )[j]).done,
{
    lemma_left_behind_done(src, tasks, src.len());
}


/// `pull_takes` on task views: entry `i` is in range, open, and named with
/// text whose bytes are its own.
pub open spec fn takes_view(src: Seq<TaskView>, tasks: Seq<(usize, String)>, i: int) -> bool {
    &&& 0 <= i < src.len()
    &&& !src[i].done
    &&& exists|k: int|
        0 <= k < tasks.len() && tasks[k].0 == i && encode_utf8(tasks[k].1@) == src[i].text
}

/// `pulled` on task views.
pub open spec fn pulled_views(src: Seq<TaskView>, tasks: Seq<(usize, String)>, n: nat) -> Seq<
    TaskView,
>
    decreases n,
{
    if n == 0 {
        Seq::empty()
    } else {
        let r = pulled_views(src, tasks, (n - 1) as nat);
        if takes_view(src, tasks, n - 1) {
            r.push(src[n - 1])
        } else {
            r
        }
    }
}

/// `left_behind` on task views.
pub open spec fn left_views(src: Seq<TaskView>, tasks: Seq<(usize, String)>, n: nat) -> Seq<
    TaskView,
>
    decreases n,
{
    if n == 0 {
        Seq::empty()
    } else {
        let r = left_views(src, tasks, (n - 1) as nat);
        if takes_view(src, tasks, n - 1) {
            r
        } else {
            r.push(src[n - 1])
        }
    }
}

/// `marked` on task views.
pub open spec fn marked_views(ts: Seq<TaskView>, done: bool) -> Seq<TaskView> {
    Seq::new(ts.len(), |i: int| TaskView { text: ts[i].text, done })
}

/// What stays behind and what is taken are entries of the source.
proof fn lemma_views_from_source(src: Seq<TaskView>, tasks: Seq<(usize, String)>, n: nat)
    requires
        n <= src.len(),
    ensures
        forall|j: int|
            0 <= j < left_views(src, tasks, n).len() ==> exists|i: int|
                0 <= i < n && (#[trigger] left_views(src, tasks, n)[j]) == src[i],
        forall|j: int|
            0 <= j < pulled_views(src, tasks, n).len() ==> exists|i: int|
                0 <= i < n && (#[trigger] pulled_views(src, tasks, n)[j]) == src[i],
    decreases n,
{
    if n > 0 {
        lemma_views_from_source(src, tasks, (n - 1) as nat);
        let l0 = left_views(src, tasks, (n - 1) as nat);
        let p0 = pulled_views(src, tasks, (n - 1) as nat);
        let l = left_views(src, tasks, n);
        let p = pulled_views(src, tasks, n);
        assert forall|j: int| 0 <= j < l.len() implies exists|i: int| 0 <= i < n && (#[trigger] l[j]) == src[i] by {
            if j < l0.len() {
                let i = choose|i: int| 0 <= i < n - 1 && (#[trigger] l0[j]) == src[i];
                assert(l[j] == src[i]);
            } else {
                assert(l[j] == src[n - 1]);
            }
        }
        assert forall|j: int| 0 <= j < p.len() implies exists|i: int| 0 <= i < n && (#[trigger] p[j]) == src[i] by {
            if j < p0.len() {
                let i = choose|i: int| 0 <= i < n - 1 && (#[trigger] p0[j]) == src[i];
                assert(p[j] == src[i]);
            } else {
                assert(p[j] == src[n - 1]);
            }
        }
    }
}

/// After a pull, the source file as written reads back with exactly the
/// tasks that were not taken still open in its active list, and the taken
/// ones ticked at the end of its completed list: a second pull from it
/// cannot offer a task the first one took. It holds for every source file
/// that parses, unless one of its tasks ends in a carriage return.
pub proof fn lemma_pulled_source_reads_back(s: Seq<u8>, tasks: Seq<(usize, String)>)
    requires
        spec_parse(s) is Ok,
        no_trailing_cr(spec_parse(s)->Ok_0),
    ensures
        ({
            let p = spec_parse(s)->Ok_0;
            let n = p.active.len();
            let left = left_views(p.active, tasks, n);
            let done = p.completed + marked_views(pulled_views(p.active, tasks, n), true);
            spec_parse(spec_serialize(p.timestamp, left, done)) == Ok::<ParsedView, ParseError>(
                ParsedView {
                    timestamp: p.timestamp,
                    active: with_done(left, false),
                    completed: with_done(done, true),
                },
            )
        }),
{
    let p = spec_parse(s)->Ok_0;
    let n = p.active.len();
    let left = left_views(p.active, tasks, n);
    let took = pulled_views(p.active, tasks, n);
    let done = p.completed + marked_views(took, true);
    lemma_parsed_round_trips(s);
    lemma_views_from_source(p.active, tasks, n);
    assert forall|j: int| 0 <= j < left.len() implies round_trips(#[trigger] left[j].text) by {
        let i = choose|i: int| 0 <= i < n && (#[trigger] left[j]) == p.active[i];
        assert(round_trips(p.active[i].text));
    }
    assert forall|j: int| 0 <= j < done.len() implies round_trips(#[trigger] done[j].text) by {
        if j < p.completed.len() {
            assert(done[j] == p.completed[j]);
        } else {
            let k = j - p.completed.len();
            assert(done[j].text == took[k].text);
            let i = choose|i: int| 0 <= i < n && (#[trigger] took[k]) == p.active[i];
            assert(round_trips(p.active[i].text));
        }
    }
    lemma_serialize_then_parse(p.timestamp, left, done);
}

proof fn lemma_encode_injective(a: Seq<char>, b: Seq<char>)
    requires
        encode_utf8(a) == encode_utf8(b),
    ensures
        a == b,
{
    encode_utf8_decode_utf8(a);
    encode_utf8_decode_utf8(b);
}

proof fn lemma_takes_view(src: Seq<Task>, tasks: Seq<(usize, String)>, i: int)
    ensures
        pull_takes(src, tasks, i) == takes_view(task_views(src), tasks, i),
{
    if 0 <= i < src.len() {
        assert(task_views(src)[i] == src[i]@);
        if takes_view(task_views(src), tasks, i) {
            let k = choose|k: int|
                0 <= k < tasks.len() && tasks[k].0 == i && encode_utf8(tasks[k].1@) == task_views(
                    src,
                )[i].text;
            lemma_encode_injective(tasks[k].1@, src[i].text@);
        }
    }
}

/// The pull's lists, seen through task views.
proof fn lemma_pull_views(src: Seq<Task>, tasks: Seq<(usize, String)>, n: nat)
    requires
        n <= src.len(),
    ensures
        task_views(pulled(src, tasks, n)) == pulled_views(task_views(src), tasks, n),
        task_views(left_behind(src, tasks, n)) == left_views(task_views(src), tasks, n),
        task_views(marked(pulled(src, tasks, n), true)) == marked_views(
            pulled_views(task_views(src), tasks, n),
            true,
        ),
        task_views(marked(pulled(src, tasks, n), false)) == marked_views(
            pulled_views(task_views(src), tasks, n),
            false,
        ),
    decreases n,
{
    if n > 0 {
        lemma_pull_views(src, tasks, (n - 1) as nat);
        lemma_takes_view(src, tasks, n - 1);
        assert(task_views(src)[n - 1] == src[n - 1]@);
        let p = pulled(src, tasks, (n - 1) as nat);
        let l = left_behind(src, tasks, (n - 1) as nat);
        assert(task_views(p.push(src[n - 1])) =~= task_views(p).push(src[n - 1]@));
        assert(task_views(l.push(src[n - 1])) =~= task_views(l).push(src[n - 1]@));
    }
    let p = pulled(src, tasks, n);
    assert(task_views(marked(p, true)) =~= marked_views(task_views(p), true));
    assert(task_views(marked(p, false)) =~= marked_views(task_views(p), false));
}

proof fn lemma_views_append(a: Seq<Task>, b: Seq<Task>)
    ensures
        task_views(a + b) == task_views(a) + task_views(b),
{
    assert(task_views(a + b) =~= task_views(a) + task_views(b));
}

/// What a pull leaves to write: how many tasks moved, and the files to write
/// in order. The target comes first, so a failure between the two writes
/// leaves the tasks open in both files rather than in neither.
#[derive(Debug)]
pub struct PullWrites {
    pub moved: usize,
    pub writes: Vec<PendingWrite>,
}

/// Apply a pull to the current session given the source file's name and
/// contents (read fresh from disk), and say what must be written.
///
/// A source that does not parse is a `LoadSource` error and changes nothing.
/// When nothing moves, nothing needs writing; otherwise the target's file
/// comes first and the source's second.
pub fn pull_from_file(
    source_name: &str,
    source_contents: &str,
    target: &mut Session,
    tasks: &[(usize, String)],
) -> (r: Result<PullWrites, PullError>)
    ensures
        spec_parse(encode_utf8(source_contents@)) is Err ==> (r matches Err(
            PullError::LoadSource { name, source: LoadError::Parse(_) },
        ) && name@ == source_name@ && *final(target) == *old(target)),
        spec_parse(encode_utf8(source_contents@)) matches Ok(p) ==> (r matches Ok(w) && {
            let took = pulled_views(p.active, tasks@, p.active.len());
            &&& w.moved == took.len()
            &&& final(target).filename == old(target).filename
            &&& final(target).timestamp == old(target).timestamp
            &&& final(target).completed@ == old(target).completed@
            &&& task_views(final(target).active@) == task_views(old(target).active@)
                + marked_views(took, false)
            &&& final(target).dirty == (old(target).dirty || w.moved > 0)
            &&& (w.moved == 0 ==> w.writes@.len() == 0)
            &&& (w.moved > 0 ==> {
                &&& w.writes@.len() == 2
                &&& w.writes@[0].filename@ == old(target).filename@
                &&& encode_utf8(w.writes@[0].contents@) == session_bytes(*final(target))
                &&& w.writes@[1].filename@ == source_name@
                &&& encode_utf8(w.writes@[1].contents@) == spec_serialize(
                    p.timestamp,
                    left_views(p.active, tasks@, p.active.len()),
                    p.completed + marked_views(took, true),
                )
            })
        }),
{
    let mut loaded = match Session::from_contents(source_name, source_contents) {
        Ok(s) => s,
        Err(e) => {
            return Err(PullError::LoadSource { name: source_name.to_owned(), source: e });
        },
    };
    let ghost src = loaded.active@;
    let ghost done0 = loaded.completed@;
    let ghost tgt0 = target.active@;
    let moved = pull_tasks(&mut loaded, target, tasks);
    proof {
        lemma_pull_views(src, tasks@, src.len());
        lemma_views_append(done0, marked(pulled(src, tasks@, src.len()), true));
        lemma_views_append(tgt0, marked(pulled(src, tasks@, src.len()), false));
    }
    let ghost took = pulled_views(task_views(src), tasks@, src.len());
    proof {
        assert(task_views(src).len() == src.len());
        assert(task_views(pulled(src, tasks@, src.len())).len() == pulled(src, tasks@, src.len()).len());
        assert(moved == took.len());
        assert(task_views(loaded.active@) == left_views(task_views(src), tasks@, src.len()));
        assert(task_views(loaded.completed@) == task_views(done0) + marked_views(took, true));
        assert(task_views(target.active@) == task_views(tgt0) + marked_views(took, false));
    }
    let mut writes: Vec<PendingWrite> = Vec::new();
    if moved > 0 {
        let first = PendingWrite { filename: target.filename.clone(), contents: target.contents() };
        let second = PendingWrite { filename: loaded.filename.clone(), contents: loaded.contents() };
        writes.push(first);
        writes.push(second);
        proof {
            assert(writes@[0] == first);
            assert(writes@[1] == second);
        }
    }
    Ok(PullWrites { moved, writes })
}

} // verus!


