//! `p`: pull open tasks out of a past session into the current one.
//!
//! Two stages: choose a session, then choose which of its open tasks come
//! across. Every transition is [`PullState::on_key`], a function of the
//! state and the key; the screen loop only draws, reads and dispatches.

use vstd::prelude::*;
use vstd::utf8::*;
use crate::format::{decimal, decimal_string, push_char};
use crate::input::KeyCode;
use crate::markdown::{parse, spec_parse, task_views};
use crate::model::{Task, TaskView};
use crate::picker::{Entry, chars_of, pretty_chars, pretty_name, spaces};

verus! {

/// A past session with something worth pulling.
#[derive(Debug, Clone, PartialEq, Eq)]
pub struct Candidate {
    pub name: String,
    /// Each open task's index in the file's `active` list, and its text. The
    /// index is what a pull needs; the text is what the screen shows.
    pub open: Vec<(usize, String)>,
}

/// A candidate as values: its name, and each open task's index and text
/// bytes.
pub struct CandidateView {
    pub name: Seq<char>,
    pub open: Seq<(int, Seq<u8>)>,
}

impl View for Candidate {
    type V = CandidateView;

    open spec fn view(&self) -> CandidateView {
        CandidateView {
            name: self.name@,
            open: self.open@.map_values(|p: (usize, String)| (p.0 as int, encode_utf8(p.1@))),
        }
    }
}

#[derive(Debug, Clone, Copy, PartialEq, Eq, Structural)]
pub enum Stage {
    Sessions,
    Tasks,
}

/// A confirmed pull.
#[derive(Debug, Clone, PartialEq, Eq)]
pub struct Pulled {
    pub source: String,
    /// Indices into the source's `active` list, ascending and unique.
    pub indices: Vec<usize>,
}

/// What a key did.
#[derive(Debug, Clone, PartialEq, Eq)]
pub enum Step {
    Stay,
    Cancel,
    Pull(Pulled),
}

/// A step as values.
pub enum StepView {
    Stay,
    Cancel,
    Pull(Seq<char>, Seq<int>),
}

impl View for Step {
    type V = StepView;

    open spec fn view(&self) -> StepView {
        match self {
            Step::Stay => StepView::Stay,
            Step::Cancel => StepView::Cancel,
            Step::Pull(p) => StepView::Pull(p.source@, p.indices@.map_values(|i: usize| i as int)),
        }
    }
}

#[derive(Debug, Clone, PartialEq, Eq)]
pub struct PullState {
    candidates: Vec<Candidate>,
    stage: Stage,
    session_cursor: usize,
    /// Parallel to the chosen candidate's `open`. Empty in `Stage::Sessions`.
    selected: Vec<bool>,
    task_cursor: usize,
}

/// The pull screen as values.
pub struct PullView {
    pub candidates: Seq<CandidateView>,
    pub stage: Stage,
    pub session_cursor: usize,
    pub selected: Seq<bool>,
    pub task_cursor: usize,
}

impl View for PullState {
    type V = PullView;

    closed spec fn view(&self) -> PullView {
        PullView {
            candidates: self.candidates@.map_values(|c: Candidate| c@),
            stage: self.stage,
            session_cursor: self.session_cursor,
            selected: self.selected@,
            task_cursor: self.task_cursor,
        }
    }
}

/// The open tasks among the first `n` of `active`, each with its index.
pub open spec fn open_entries(active: Seq<TaskView>, n: nat) -> Seq<(int, Seq<u8>)>
    decreases n,
{
    if n == 0 {
        seq![]
    } else {
        let r = open_entries(active, (n - 1) as nat);
        if !active[n - 1].done {
            r.push((n - 1, active[n - 1].text))
        } else {
            r
        }
    }
}

/// What an entry offers to a pull into `current`: nothing for the current
/// session itself, for a file that does not parse, or for one whose active
/// list has no open task.
pub open spec fn candidate_of(e: Entry, current: Seq<char>) -> Option<CandidateView> {
    if e.name@ == current {
        None
    } else {
        match spec_parse(encode_utf8(e.contents@)) {
            Ok(p) => {
                let o = open_entries(p.active, p.active.len());
                if o.len() > 0 {
                    Some(CandidateView { name: e.name@, open: o })
                } else {
                    None
                }
            },
            Err(_) => None,
        }
    }
}

/// The candidates among the first `n` entries, in order.
pub open spec fn candidate_views(es: Seq<Entry>, current: Seq<char>, n: nat) -> Seq<CandidateView>
    decreases n,
{
    if n == 0 {
        seq![]
    } else {
        let r = candidate_views(es, current, (n - 1) as nat);
        match candidate_of(es[n - 1], current) {
            Some(c) => r.push(c),
            None => r,
        }
    }
}

/// The indices of the picked tasks among the first `n` of `open`, in order.
pub open spec fn picked(open: Seq<(int, Seq<u8>)>, sel: Seq<bool>, n: nat) -> Seq<int>
    decreases n,
{
    if n == 0 {
        seq![]
    } else {
        let r = picked(open, sel, (n - 1) as nat);
        if sel[n - 1] {
            r.push(open[n - 1].0)
        } else {
            r
        }
    }
}

/// The picked entries among the first `n` of `open`, in order.
pub open spec fn picked_pairs(open: Seq<(int, Seq<u8>)>, sel: Seq<bool>, n: nat) -> Seq<
    (int, Seq<u8>),
>
    decreases n,
{
    if n == 0 {
        seq![]
    } else {
        let r = picked_pairs(open, sel, (n - 1) as nat);
        if sel[n - 1] {
            r.push(open[n - 1])
        } else {
            r
        }
    }
}

/// Whether every flag is set.
pub open spec fn all_set(sel: Seq<bool>) -> bool {
    forall|i: int| 0 <= i < sel.len() ==> sel[i]
}

/// The state after a key. With nothing to pull every key cancels and
/// nothing changes.
pub open spec fn after_key(v: PullView, code: KeyCode) -> PullView {
    let n = v.candidates.len();
    let sc = v.session_cursor;
    let tc = v.task_cursor;
    let sel = v.selected;
    if n == 0 {
        v
    } else {
        match v.stage {
            Stage::Sessions => if code == KeyCode::Down || code == KeyCode::Char('j') {
                if sc + 1 < n {
                    PullView { session_cursor: (sc + 1) as usize, ..v }
                } else {
                    v
                }
            } else if code == KeyCode::Up || code == KeyCode::Char('k') {
                PullView { session_cursor: if sc > 0 { (sc - 1) as usize } else { 0 }, ..v }
            } else if code == KeyCode::Enter {
                let count = if sc < n { v.candidates[sc as int].open.len() } else { 0 };
                PullView {
                    selected: Seq::new(count, |i: int| true),
                    task_cursor: 0,
                    stage: Stage::Tasks,
                    ..v
                }
            } else {
                v
            },
            Stage::Tasks => if code == KeyCode::Esc {
                PullView { stage: Stage::Sessions, ..v }
            } else if code == KeyCode::Down || code == KeyCode::Char('j') {
                if tc + 1 < sel.len() {
                    PullView { task_cursor: (tc + 1) as usize, ..v }
                } else {
                    v
                }
            } else if code == KeyCode::Up || code == KeyCode::Char('k') {
                PullView { task_cursor: if tc > 0 { (tc - 1) as usize } else { 0 }, ..v }
            } else if code == KeyCode::Char(' ') {
                if tc < sel.len() {
                    PullView { selected: sel.update(tc as int, !sel[tc as int]), ..v }
                } else {
                    v
                }
            } else if code == KeyCode::Char('a') {
                PullView { selected: Seq::new(sel.len(), |i: int| !all_set(sel)), ..v }
            } else {
                v
            },
        }
    }
}

/// What a key did. Esc or `q` cancels the session stage, `q` cancels the
/// task stage, and Enter there pulls the picked tasks of the session under
/// the cursor, when any are picked.
pub open spec fn step_of(v: PullView, code: KeyCode) -> StepView {
    let n = v.candidates.len();
    let sc = v.session_cursor;
    if n == 0 {
        StepView::Cancel
    } else {
        match v.stage {
            Stage::Sessions => if code == KeyCode::Esc || code == KeyCode::Char('q') {
                StepView::Cancel
            } else {
                StepView::Stay
            },
            Stage::Tasks => if code == KeyCode::Char('q') {
                StepView::Cancel
            } else if code == KeyCode::Enter && sc < n {
                let c = v.candidates[sc as int];
                let m = if c.open.len() < v.selected.len() {
                    c.open.len()
                } else {
                    v.selected.len()
                };
                let idx = picked(c.open, v.selected, m);
                if idx.len() > 0 {
                    StepView::Pull(c.name, idx)
                } else {
                    StepView::Stay
                }
            } else {
                StepView::Stay
            },
        }
    }
}

/// Whether the indices of `open` strictly ascend.
pub open spec fn ascending(open: Seq<(int, Seq<u8>)>) -> bool {
    forall|a: int, b: int| 0 <= a < b < open.len() ==> open[a].0 < open[b].0
}

/// Whether the screen state is consistent: every candidate has open tasks
/// listed in ascending index order; the session cursor is on a candidate
/// (at 0 when there are none); in the task stage the selection runs
/// parallel to that candidate's open tasks, with the task cursor on one.
pub open spec fn pull_wf(v: PullView) -> bool {
    &&& (v.candidates.len() == 0 ==> v.session_cursor == 0 && v.stage == Stage::Sessions)
    &&& (v.candidates.len() > 0 ==> v.session_cursor < v.candidates.len())
    &&& (forall|i: int|
        0 <= i < v.candidates.len() ==> #[trigger] v.candidates[i].open.len() > 0 && ascending(
            v.candidates[i].open,
        ))
    &&& (v.stage == Stage::Tasks ==> {
        &&& v.selected.len() == v.candidates[v.session_cursor as int].open.len()
        &&& v.task_cursor < v.selected.len()
    })
}

/// Every key keeps the pull screen consistent.
pub proof fn lemma_keys_keep_pull_wf(v: PullView, code: KeyCode)
    requires
        pull_wf(v),
    ensures
        pull_wf(after_key(v, code)),
{
}

/// The tasks of a session a pull picks: the indices of the selected ones.
pub open spec fn chosen(v: PullView) -> Seq<int> {
    let c = v.candidates[v.session_cursor as int];
    picked(c.open, v.selected, c.open.len())
}

/// The indices of a candidate's open tasks.
pub open spec fn open_indices(c: CandidateView) -> Seq<int> {
    c.open.map_values(|e: (int, Seq<u8>)| e.0)
}

/// A pull names the session under the cursor and open tasks of it, in
/// ascending order and so without repeats.
pub proof fn lemma_pull_names_open_tasks(v: PullView, code: KeyCode)
    requires
        pull_wf(v),
        step_of(v, code) is Pull,
    ensures
        step_of(v, code) == StepView::Pull(v.candidates[v.session_cursor as int].name, chosen(v)),
        forall|i: int|
            0 <= i < chosen(v).len() ==> open_indices(v.candidates[v.session_cursor as int]).contains(
                #[trigger] chosen(v)[i],
            ),
        forall|i: int, j: int| 0 <= i < j < chosen(v).len() ==> chosen(v)[i] < chosen(v)[j],
{
    let c = v.candidates[v.session_cursor as int];
    assert(c.open.len() > 0 && ascending(c.open));
    lemma_picked_from(c.open, v.selected, c.open.len());
    let p = picked(c.open, v.selected, c.open.len());
    assert forall|i: int| 0 <= i < chosen(v).len() implies open_indices(c).contains(
        #[trigger] chosen(v)[i],
    ) by {
        assert(chosen(v)[i] == p[i]);
        let k = choose|k: int| 0 <= k < c.open.len() && p[i] == (#[trigger] c.open[k]).0;
        assert(open_indices(c)[k] == p[i]);
    }
}

proof fn lemma_picked_from(open: Seq<(int, Seq<u8>)>, sel: Seq<bool>, n: nat)
    requires
        n <= open.len(),
        n <= sel.len(),
        ascending(open),
    ensures
        forall|i: int|
            #![trigger picked(open, sel, n)[i]]
            0 <= i < picked(open, sel, n).len() ==> exists|k: int| 0 <= k < n && picked(open, sel, n)[i] == (#[trigger] open[k]).0,
        forall|i: int, j: int|
            0 <= i < j < picked(open, sel, n).len() ==> picked(open, sel, n)[i] < picked(open, sel, n)[j],
    decreases n,
{
    if n > 0 {
        lemma_picked_from(open, sel, (n - 1) as nat);
        let r = picked(open, sel, (n - 1) as nat);
        let p = picked(open, sel, n);
        if sel[n - 1] {
            assert(p == r.push(open[n - 1].0));
        } else {
            assert(p == r);
        }
        assert forall|i: int| #![trigger p[i]] 0 <= i < p.len() implies exists|k: int| 0 <= k < n && p[i] == (#[trigger] open[k]).0 by {
            if i < r.len() {
                let k = choose|k: int| 0 <= k < n - 1 && r[i] == (#[trigger] open[k]).0;
                assert(p[i] == open[k].0);
            } else {
                assert(p[i] == open[n - 1].0);
            }
        }
        assert forall|i: int, j: int| 0 <= i < j < p.len() implies p[i] < p[j] by {
            if j == r.len() {
                let k = choose|k: int| 0 <= k < n - 1 && r[i] == (#[trigger] open[k]).0;
                assert(open[k].0 < open[n - 1].0);
                assert(p[i] == r[i]);
            } else {
                assert(p[i] == r[i] && p[j] == r[j]);
            }
        }
    }
}

/// The open tasks among the first `n` of a parsed active list ascend by
/// index.
proof fn lemma_open_entries(active: Seq<TaskView>, n: nat)
    requires
        n <= active.len(),
    ensures
        forall|i: int| 0 <= i < open_entries(active, n).len() ==> open_entries(active, n)[i].0 < n,
        forall|a: int, b: int| 0 <= a < b < open_entries(active, n).len() ==> open_entries(active, n)[a].0
            < open_entries(active, n)[b].0,
        open_entries(active, n).len() <= n,
    decreases n,
{
    if n > 0 {
        lemma_open_entries(active, (n - 1) as nat);
        let r = open_entries(active, (n - 1) as nat);
        let o = open_entries(active, n);
        if !active[n - 1].done {
            assert(o == r.push((n - 1, active[n - 1].text)));
            assert forall|a: int, b: int| 0 <= a < b < o.len() implies o[a].0 < o[b].0 by {
                if b == r.len() {
                    assert(o[a] == r[a]);
                } else {
                    assert(o[a] == r[a] && o[b] == r[b]);
                }
            }
        }
    }
}

/// The open tasks of a parsed active list, with their indices.
fn open_of(active: &Vec<Task>) -> (r: Vec<(usize, String)>)
    ensures
        r@.map_values(|p: (usize, String)| (p.0 as int, encode_utf8(p.1@))) == open_entries(
            task_views(active@),
            active@.len(),
        ),
{
    let ghost views = task_views(active@);
    let mut r: Vec<(usize, String)> = Vec::new();
    let mut i: usize = 0;
    while i < active.len()
        invariant
            i <= active@.len(),
            views == task_views(active@),
            r@.map_values(|p: (usize, String)| (p.0 as int, encode_utf8(p.1@))) == open_entries(
                views,
                i as nat,
            ),
        decreases active@.len() - i,
    {
        let t = &active[i];
        if !t.done {
            let text = t.text.clone();
            let ghost before = r@;
            r.push((i, text));
            proof {
                assert(r@.map_values(|p: (usize, String)| (p.0 as int, encode_utf8(p.1@))) =~= before.map_values(
                    |p: (usize, String)| (p.0 as int, encode_utf8(p.1@)),
                ).push((i as int, views[i as int].text)));
            }
        }
        i += 1;
    }
    r
}

/// Past sessions that have at least one pullable task, in the order given.
///
/// "Pullable" is narrower than the picker's open count: a task is pulled out
/// of the file's active list, so only the open tasks filed there count. A
/// file that does not parse is dropped rather than failing the screen.
pub fn candidates(entries: &[Entry], current: &str) -> (r: Vec<Candidate>)
    ensures
        r@.map_values(|c: Candidate| c@) == candidate_views(entries@, current@, entries@.len()),
{
    let cur = current.to_owned();
    let mut r: Vec<Candidate> = Vec::new();
    let mut i: usize = 0;
    while i < entries.len()
        invariant
            i <= entries@.len(),
            cur@ == current@,
            r@.map_values(|c: Candidate| c@) == candidate_views(entries@, current@, i as nat),
        decreases entries@.len() - i,
    {
        let e = &entries[i];
        let ghost before = r@;
        if e.name != cur {
            match parse(e.contents.as_str()) {
                Ok(parsed) => {
                    let open = open_of(&parsed.active);
                    if open.len() > 0 {
                        let c = Candidate { name: e.name.clone(), open };
                        r.push(c);
                        proof {
                            assert(r@.map_values(|c: Candidate| c@) =~= before.map_values(
                                |c: Candidate| c@,
                            ).push(c@));
                        }
                    }
                },
                Err(_) => {},
            }
        }
        i += 1;
    }
    r
}

/// Whether the first `n` flags are all set.
fn all_selected(sel: &Vec<bool>) -> (r: bool)
    ensures
        r == all_set(sel@),
{
    let mut i: usize = 0;
    while i < sel.len()
        invariant
            i <= sel@.len(),
            forall|k: int| 0 <= k < i ==> sel@[k],
        decreases sel@.len() - i,
    {
        if !sel[i] {
            return false;
        }
        i += 1;
    }
    true
}

/// `n` copies of `flag`.
fn flags(n: usize, flag: bool) -> (r: Vec<bool>)
    ensures
        r@ == Seq::new(n as nat, |i: int| flag),
{
    let mut r: Vec<bool> = Vec::new();
    let mut i: usize = 0;
    while i < n
        invariant
            i <= n,
            r@ == Seq::new(i as nat, |k: int| flag),
        decreases n - i,
    {
        r.push(flag);
        i += 1;
        proof {
            assert(r@ =~= Seq::new(i as nat, |k: int| flag));
        }
    }
    r
}

/// The indices of the picked tasks of `c`, in order.
fn picked_indices(c: &Candidate, sel: &Vec<bool>) -> (r: Vec<usize>)
    ensures
        r@.map_values(|i: usize| i as int) == picked(
            c@.open,
            sel@,
            if c@.open.len() < sel@.len() {
                c@.open.len()
            } else {
                sel@.len()
            },
        ),
{
    let m = if c.open.len() < sel.len() {
        c.open.len()
    } else {
        sel.len()
    };
    let mut r: Vec<usize> = Vec::new();
    let mut i: usize = 0;
    while i < m
        invariant
            i <= m,
            m <= c.open@.len(),
            m <= sel@.len(),
            r@.map_values(|k: usize| k as int) == picked(c@.open, sel@, i as nat),
        decreases m - i,
    {
        let ghost before = r@;
        if sel[i] {
            r.push(c.open[i].0);
            proof {
                assert(r@.map_values(|k: usize| k as int) =~= before.map_values(|k: usize| k as int).push(
                    c@.open[i as int].0,
                ));
            }
        }
        i += 1;
    }
    r
}

impl PullState {
    pub fn new(entries: &[Entry], current: &str) -> (s: PullState)
        ensures
            s@.candidates == candidate_views(entries@, current@, entries@.len()),
            s@.stage == Stage::Sessions,
            s@.session_cursor == 0,
            s@.selected.len() == 0,
            s@.task_cursor == 0,
            pull_wf(s@),
    {
        let candidates = candidates(entries, current);
        let s = PullState {
            candidates,
            stage: Stage::Sessions,
            session_cursor: 0,
            selected: Vec::new(),
            task_cursor: 0,
        };
        proof {
            lemma_candidates_nonempty(entries@, current@, entries@.len());
        }
        s
    }

    /// Whether there is anything to pull. The screen says so, and every key
    /// cancels.
    pub fn is_empty(&self) -> (r: bool)
        ensures
            r == (self@.candidates.len() == 0),
    {
        self.candidates.len() == 0
    }

    /// The session the cursor is on, if any.
    pub fn current(&self) -> (r: Option<&Candidate>)
        ensures
            self@.session_cursor < self@.candidates.len() ==> (r matches Some(c) && c@
                == self@.candidates[self@.session_cursor as int]),
            self@.session_cursor >= self@.candidates.len() ==> r is None,
    {
        if self.session_cursor < self.candidates.len() {
            Some(&self.candidates[self.session_cursor])
        } else {
            None
        }
    }

    pub fn stage(&self) -> (r: Stage)
        ensures
            r == self@.stage,
    {
        self.stage
    }

    pub fn session_cursor(&self) -> (r: usize)
        ensures
            r == self@.session_cursor,
    {
        self.session_cursor
    }

    pub fn task_cursor(&self) -> (r: usize)
        ensures
            r == self@.task_cursor,
    {
        self.task_cursor
    }

    pub fn selected(&self) -> (r: &[bool])
        ensures
            r@ == self@.selected,
    {
        self.selected.as_slice()
    }

    pub fn candidate_list(&self) -> (r: &[Candidate])
        ensures
            r@.map_values(|c: Candidate| c@) == self@.candidates,
    {
        self.candidates.as_slice()
    }

    /// The picked open tasks of the session under the cursor, each with
    /// its index and its text: what a pull hands over, the text travelling
    /// with the index so a task changed on disk since is left alone.
    pub fn picked_tasks(&self) -> (r: Vec<(usize, String)>)
        ensures
            self@.session_cursor < self@.candidates.len() ==> {
                let c = self@.candidates[self@.session_cursor as int];
                r@.map_values(|p: (usize, String)| (p.0 as int, encode_utf8(p.1@))) == picked_pairs(
                    c.open,
                    self@.selected,
                    if c.open.len() < self@.selected.len() {
                        c.open.len()
                    } else {
                        self@.selected.len()
                    },
                )
            },
            self@.session_cursor >= self@.candidates.len() ==> r@.len() == 0,
    {
        let mut r: Vec<(usize, String)> = Vec::new();
        let c = match self.current() {
            Some(c) => c,
            None => return r,
        };
        let m = if c.open.len() < self.selected.len() {
            c.open.len()
        } else {
            self.selected.len()
        };
        let mut i: usize = 0;
        while i < m
            invariant
                i <= m,
                m <= c.open@.len(),
                m <= self.selected@.len(),
                r@.map_values(|p: (usize, String)| (p.0 as int, encode_utf8(p.1@))) == picked_pairs(
                    c@.open,
                    self.selected@,
                    i as nat,
                ),
            decreases m - i,
        {
            let ghost before = r@;
            if self.selected[i] {
                let pair = (c.open[i].0, c.open[i].1.clone());
                r.push(pair);
                proof {
                    assert(r@.map_values(|p: (usize, String)| (p.0 as int, encode_utf8(p.1@))) =~= before.map_values(
                        |p: (usize, String)| (p.0 as int, encode_utf8(p.1@)),
                    ).push(c@.open[i as int]));
                }
            }
            i += 1;
        }
        r
    }

    pub fn on_key(&mut self, code: KeyCode) -> (r: Step)
        ensures
            final(self)@ == after_key(old(self)@, code),
            r@ == step_of(old(self)@, code),
    {
        if self.is_empty() {
            return Step::Cancel;
        }
        match self.stage {
            Stage::Sessions => self.session_key(code),
            Stage::Tasks => self.task_key(code),
        }
    }

    fn session_key(&mut self, code: KeyCode) -> (r: Step)
        requires
            old(self)@.candidates.len() > 0,
            old(self)@.stage == Stage::Sessions,
        ensures
            final(self)@ == after_key(old(self)@, code),
            r@ == step_of(old(self)@, code),
    {
        let ghost v = self@;
        match code {
            KeyCode::Esc | KeyCode::Char('q') => return Step::Cancel,
            KeyCode::Down | KeyCode::Char('j') => {
                if self.session_cursor < self.candidates.len() && self.session_cursor + 1
                    < self.candidates.len() {
                    self.session_cursor = self.session_cursor + 1;
                }
            },
            KeyCode::Up | KeyCode::Char('k') => {
                self.session_cursor = self.session_cursor.saturating_sub(1);
            },
            KeyCode::Enter => {
                let count = match self.current() {
                    Some(c) => c.open.len(),
                    None => 0,
                };
                self.selected = flags(count, true);
                self.task_cursor = 0;
                self.stage = Stage::Tasks;
            },
            _ => {},
        }
        proof {
            assert(self@ =~= after_key(v, code));
        }
        Step::Stay
    }

    fn task_key(&mut self, code: KeyCode) -> (r: Step)
        requires
            old(self)@.candidates.len() > 0,
            old(self)@.stage == Stage::Tasks,
        ensures
            final(self)@ == after_key(old(self)@, code),
            r@ == step_of(old(self)@, code),
    {
        let ghost v = self@;
        match code {
            KeyCode::Char('q') => return Step::Cancel,
            KeyCode::Esc => self.stage = Stage::Sessions,
            KeyCode::Down | KeyCode::Char('j') => {
                if self.task_cursor < self.selected.len() && self.task_cursor + 1
                    < self.selected.len() {
                    self.task_cursor = self.task_cursor + 1;
                }
            },
            KeyCode::Up | KeyCode::Char('k') => {
                self.task_cursor = self.task_cursor.saturating_sub(1);
            },
            KeyCode::Char(' ') => {
                if self.task_cursor < self.selected.len() {
                    let flag = self.selected[self.task_cursor];
                    self.selected.set(self.task_cursor, !flag);
                }
            },
            KeyCode::Char('a') => {
                let target = !all_selected(&self.selected);
                self.selected = flags(self.selected.len(), target);
            },
            KeyCode::Enter => {
                let candidate = match self.current() {
                    Some(c) => c,
                    None => return Step::Stay,
                };
                let indices = picked_indices(candidate, &self.selected);
                if indices.len() == 0 {
                    return Step::Stay;
                }
                return Step::Pull(Pulled { source: candidate.name.clone(), indices });
            },
            _ => {},
        }
        proof {
            assert(self@ =~= after_key(v, code));
        }
        Step::Stay
    }
}

proof fn lemma_candidates_nonempty(es: Seq<Entry>, current: Seq<char>, n: nat)
    requires
        n <= es.len(),
    ensures
        forall|i: int|
            0 <= i < candidate_views(es, current, n).len() ==> #[trigger] candidate_views(
                es,
                current,
                n,
            )[i].open.len() > 0 && ascending(candidate_views(es, current, n)[i].open),
    decreases n,
{
    if n > 0 {
        lemma_candidates_nonempty(es, current, (n - 1) as nat);
        let r = candidate_views(es, current, (n - 1) as nat);
        match spec_parse(encode_utf8(es[n - 1].contents@)) {
            Ok(p) => lemma_open_entries(p.active, p.active.len()),
            Err(_) => {},
        }
        match candidate_of(es[n - 1], current) {
            Some(c) => {
                let q = candidate_views(es, current, n);
                assert(q == r.push(c));
                assert forall|i: int| 0 <= i < q.len() implies #[trigger] q[i].open.len() > 0 && ascending(q[i].open) by {
                    if i < r.len() {
                        assert(q[i] == r[i]);
                    }
                }
            },
            None => {},
        }
    }
}

/// Marker in front of the row the cursor is on. Same glyph the picker uses.
pub const CURSOR: char = '\u{25b8}';

/// Column the session rows' open counts start on, so they line up.
pub const COUNT_COLUMN: usize = 26;

/// `▸ 2026-05-31  14:30         2 open`: the marker, the pretty name, spaces
/// up to the count column (at least one), and the open count.
pub open spec fn session_row_chars(name: Seq<char>, count: nat, selected: bool) -> Seq<char> {
    let marker = if selected { CURSOR } else { ' ' };
    let pretty = pretty_chars(name);
    let pad: nat = if pretty.len() < COUNT_COLUMN {
        (COUNT_COLUMN - pretty.len()) as nat
    } else {
        1
    };
    seq![marker, ' '] + pretty + spaces(pad) + decimal(count) + " open"@
}

/// `▸ [x] text`: the marker, the checkbox, the task's text.
pub open spec fn task_row_chars(text: Seq<char>, picked: bool, selected: bool) -> Seq<char> {
    let marker = if selected { CURSOR } else { ' ' };
    let mark = if picked { 'x' } else { ' ' };
    seq![marker, ' ', '[', mark, ']', ' '] + text
}

/// One row of the session stage.
pub fn session_row(candidate: &Candidate, selected: bool) -> (r: String)
    ensures
        r@ == session_row_chars(candidate.name@, candidate.open@.len(), selected),
{
    let mut s = String::new();
    push_char(&mut s, if selected { CURSOR } else { ' ' });
    push_char(&mut s, ' ');
    let name = pretty_name(candidate.name.as_str());
    let width = chars_of(name.as_str()).len();
    s.append(name.as_str());
    let pad = if width < COUNT_COLUMN {
        COUNT_COLUMN - width
    } else {
        1
    };
    let ghost start = s@;
    let mut i: usize = 0;
    while i < pad
        invariant
            i <= pad,
            s@ == start + spaces(i as nat),
        decreases pad - i,
    {
        push_char(&mut s, ' ');
        i += 1;
        proof {
            assert(s@ =~= start + spaces(i as nat));
        }
    }
    s.append(decimal_string(candidate.open.len() as u64).as_str());
    s.append(" open");
    proof {
        assert(s@ =~= session_row_chars(candidate.name@, candidate.open@.len(), selected));
    }
    s
}

/// One row of the task stage.
pub fn task_row(text: &str, picked: bool, selected: bool) -> (r: String)
    ensures
        r@ == task_row_chars(text@, picked, selected),
{
    let mut s = String::new();
    push_char(&mut s, if selected { CURSOR } else { ' ' });
    push_char(&mut s, ' ');
    push_char(&mut s, '[');
    push_char(&mut s, if picked { 'x' } else { ' ' });
    push_char(&mut s, ']');
    push_char(&mut s, ' ');
    s.append(text);
    proof {
        assert(s@ =~= task_row_chars(text@, picked, selected));
    }
    s
}

/// The indices `picked` keeps from the first `n` open tasks are exactly
/// those of the ticked ones.
proof fn lemma_picked_exact(open: Seq<(int, Seq<u8>)>, sel: Seq<bool>, n: nat)
    requires
        n <= open.len(),
        n <= sel.len(),
        ascending(open),
    ensures
        forall|k: int| 0 <= k < n ==> (picked(open, sel, n).contains(#[trigger] open[k].0) <==> sel[k]),
    decreases n,
{
    if n > 0 {
        lemma_picked_exact(open, sel, (n - 1) as nat);
        lemma_picked_from(open, sel, (n - 1) as nat);
        let r = picked(open, sel, (n - 1) as nat);
        let p = picked(open, sel, n);
        let last = open[n - 1].0;
        assert(!r.contains(last)) by {
            if r.contains(last) {
                let i = choose|i: int| 0 <= i < r.len() && r[i] == last;
                let k = choose|k: int| 0 <= k < n - 1 && r[i] == (#[trigger] open[k]).0;
                assert(open[k].0 < open[n - 1].0);
            }
        }
        assert forall|k: int| 0 <= k < n implies (p.contains(#[trigger] open[k].0) <==> sel[k]) by {
            if sel[n - 1] {
                assert(p == r.push(last));
                if k < n - 1 {
                    assert(open[k].0 < last);
                    if p.contains(open[k].0) {
                        let i = choose|i: int| 0 <= i < p.len() && p[i] == open[k].0;
                        assert(i < r.len());
                        assert(r.contains(open[k].0));
                    }
                    if r.contains(open[k].0) {
                        let i = choose|i: int| 0 <= i < r.len() && r[i] == open[k].0;
                        assert(p[i] == open[k].0);
                    }
                } else {
                    assert(p[r.len() as int] == last);
                }
            } else {
                assert(p == r);
            }
        }
    }
}

/// On the task list, Space ticks or unticks the task under the cursor and
/// only that one: its flag flips, every other flag and everything else
/// stays.
pub proof fn lemma_space_flips_only_the_task_under_the_cursor(v: PullView)
    requires
        pull_wf(v),
        v.stage == Stage::Tasks,
    ensures
        ({
            let a = after_key(v, KeyCode::Char(' '));
            let tc = v.task_cursor as int;
            &&& a.selected.len() == v.selected.len()
            &&& a.selected[tc] == !v.selected[tc]
            &&& forall|i: int| 0 <= i < v.selected.len() && i != tc ==> a.selected[i] == v.selected[i]
            &&& a.stage == Stage::Tasks
            &&& a.task_cursor == v.task_cursor
            &&& a.session_cursor == v.session_cursor
            &&& a.candidates == v.candidates
        }),
        step_of(v, KeyCode::Char(' ')) == StepView::Stay,
{
}

/// On the task list, `a` unticks every task when all are ticked and ticks
/// every task otherwise.
pub proof fn lemma_a_ticks_all_or_none(v: PullView)
    requires
        pull_wf(v),
        v.stage == Stage::Tasks,
    ensures
        ({
            let a = after_key(v, KeyCode::Char('a'));
            let all = forall|i: int| 0 <= i < v.selected.len() ==> v.selected[i];
            &&& a.selected.len() == v.selected.len()
            &&& forall|i: int| 0 <= i < v.selected.len() ==> a.selected[i] == !all
            &&& a.stage == Stage::Tasks
            &&& a.task_cursor == v.task_cursor
            &&& a.session_cursor == v.session_cursor
        }),
{
}

/// The cursor keys move the cursor of the list on show one row, stopping at
/// the ends, and change nothing else.
pub proof fn lemma_pull_cursor_keys(v: PullView, code: KeyCode)
    requires
        pull_wf(v),
        v.candidates.len() > 0,
        v.candidates.len() <= usize::MAX,
        v.selected.len() <= usize::MAX,
        code == KeyCode::Char('j') || code == KeyCode::Down || code == KeyCode::Char('k') || code
            == KeyCode::Up,
    ensures
        ({
            let a = after_key(v, code);
            let down = code == KeyCode::Char('j') || code == KeyCode::Down;
            let n = v.candidates.len() as int;
            let sc = v.session_cursor as int;
            let tc = v.task_cursor as int;
            let m = v.selected.len() as int;
            &&& a.stage == v.stage
            &&& a.selected == v.selected
            &&& a.candidates == v.candidates
            &&& v.stage == Stage::Sessions ==> {
                &&& a.task_cursor == v.task_cursor
                &&& a.session_cursor == if down {
                    if sc + 1 < n { sc + 1 } else { sc }
                } else {
                    if sc > 0 { sc - 1 } else { 0 }
                }
            }
            &&& v.stage == Stage::Tasks ==> {
                &&& a.session_cursor == v.session_cursor
                &&& a.task_cursor == if down {
                    if tc + 1 < m { tc + 1 } else { tc }
                } else {
                    if tc > 0 { tc - 1 } else { 0 }
                }
            }
        }),
        step_of(v, code) == StepView::Stay,
{
}

/// On the session list, Enter opens the session under the cursor with every
/// one of its open tasks ticked and the cursor on the first; on the task
/// list, Esc goes back to the session list where it was.
pub proof fn lemma_enter_opens_and_esc_returns(v: PullView)
    requires
        pull_wf(v),
        v.candidates.len() > 0,
    ensures
        v.stage == Stage::Sessions ==> {
            let a = after_key(v, KeyCode::Enter);
            &&& a.stage == Stage::Tasks
            &&& a.session_cursor == v.session_cursor
            &&& a.task_cursor == 0
            &&& a.selected.len() == v.candidates[v.session_cursor as int].open.len()
            &&& forall|i: int| 0 <= i < a.selected.len() ==> a.selected[i]
            &&& step_of(v, KeyCode::Enter) == StepView::Stay
        },
        v.stage == Stage::Tasks ==> {
            let a = after_key(v, KeyCode::Esc);
            &&& a.stage == Stage::Sessions
            &&& a.session_cursor == v.session_cursor
            &&& step_of(v, KeyCode::Esc) == StepView::Stay
        },
{
}

/// On the task list, Enter pulls exactly the ticked tasks of the session
/// under the cursor: the step names that session, and an open task's index
/// is among the pulled ones exactly when its flag is ticked, in ascending
/// order. With nothing ticked the screen stays.
pub proof fn lemma_enter_pulls_exactly_the_ticked_tasks(v: PullView)
    requires
        pull_wf(v),
        v.stage == Stage::Tasks,
    ensures
        ({
            let c = v.candidates[v.session_cursor as int];
            let ticked = exists|k: int| 0 <= k < v.selected.len() && v.selected[k];
            &&& ticked ==> (step_of(v, KeyCode::Enter) matches StepView::Pull(name, idx) && {
                &&& name == c.name
                &&& forall|k: int| 0 <= k < c.open.len() ==> (idx.contains(#[trigger] c.open[k].0)
                    <==> v.selected[k])
                &&& forall|i: int, j: int| 0 <= i < j < idx.len() ==> idx[i] < idx[j]
                &&& forall|i: int| 0 <= i < idx.len() ==> open_indices(c).contains(#[trigger] idx[i])
            })
            &&& !ticked ==> step_of(v, KeyCode::Enter) == StepView::Stay
        }),
{
    let c = v.candidates[v.session_cursor as int];
    assert(c.open.len() > 0 && ascending(c.open));
    lemma_picked_exact(c.open, v.selected, c.open.len());
    let p = picked(c.open, v.selected, c.open.len());
    let ticked = exists|k: int| 0 <= k < v.selected.len() && v.selected[k];
    if ticked {
        let k = choose|k: int| 0 <= k < v.selected.len() && v.selected[k];
        assert(p.contains(c.open[k].0));
        assert(p.len() > 0);
        assert(step_of(v, KeyCode::Enter) is Pull);
        lemma_pull_names_open_tasks(v, KeyCode::Enter);
    } else {
        if p.len() > 0 {
            lemma_picked_from(c.open, v.selected, c.open.len());
            let k = choose|k: int| 0 <= k < c.open.len() && p[0] == (#[trigger] c.open[k]).0;
            assert(p.contains(c.open[k].0));
            assert(v.selected[k]);
        }
    }
}

} // verus!
