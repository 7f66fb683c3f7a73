use caleb::markdown::count_tasks;
use caleb::model::{Pane, Task, Timestamp, MAX_TASK_BYTES};
use caleb::session::{create_new, pull_from_file, pull_tasks, LoadError, PullError, Session};

fn task(text: &str, done: bool) -> Task {
    Task {
        text: text.to_string(),
        done,
    }
}

/// A clean session with no tasks and no timestamp, named `x.md`.
fn empty_session() -> Session {
    Session {
        filename: "x.md".to_string(),
        timestamp: None,
        active: Vec::new(),
        completed: Vec::new(),
        dirty: false,
    }
}

/// A session pre-filled with active tasks, left non-dirty.
fn session_with(active: &[&str]) -> Session {
    let mut session = empty_session();
    for t in active {
        session.add(Pane::Active, t);
    }
    session.dirty = false;
    session
}

fn ts_at(hour: u8, minute: u8) -> Timestamp {
    Timestamp {
        year: 2026,
        month: 5,
        day: 31,
        hour,
        minute,
    }
}

#[test]
fn add_then_delete_restores_count() {
    let mut s = empty_session();
    s.add(Pane::Active, "first");
    s.add(Pane::Active, "second");
    assert_eq!(s.active.len(), 2);
    assert!(s.dirty);

    s.delete(Pane::Active, 0);
    assert_eq!(s.active.len(), 1);
    assert_eq!(s.active[0].text, "second");
}

#[test]
fn add_ignores_empty_text() {
    let mut s = empty_session();
    s.add(Pane::Active, "");
    assert!(s.active.is_empty());
    assert!(!s.dirty);
}

#[test]
fn toggle_moves_task_between_panes_and_flips_done() {
    let mut s = empty_session();
    s.add(Pane::Active, "thing");
    s.dirty = false;

    s.toggle(Pane::Active, 0);
    assert!(s.active.is_empty());
    assert_eq!(s.completed.len(), 1);
    assert_eq!(s.completed[0].text, "thing");
    assert!(s.completed[0].done);
    assert!(s.dirty);

    s.toggle(Pane::Completed, 0);
    assert_eq!(s.active.len(), 1);
    assert!(s.completed.is_empty());
    assert!(!s.active[0].done);
}

#[test]
fn toggle_out_of_range_is_a_noop() {
    let mut s = empty_session();
    s.toggle(Pane::Active, 5);
    assert!(s.active.is_empty());
    assert!(!s.dirty);
}

#[test]
fn add_caps_text_at_max_bytes() {
    let mut s = empty_session();
    s.add(Pane::Active, &"x".repeat(200));
    assert_eq!(s.active[0].text.len(), MAX_TASK_BYTES);
}

#[test]
fn add_truncates_on_char_boundary_not_mid_sequence() {
    let mut s = empty_session();
    // 149 ASCII bytes then a 2-byte char: cutting at 150 would split it.
    let text = format!("{}é", "x".repeat(MAX_TASK_BYTES - 1));
    s.add(Pane::Active, &text);
    assert_eq!(s.active[0].text.len(), MAX_TASK_BYTES - 1);
    assert!(s.active[0].text.is_char_boundary(s.active[0].text.len()));
}

#[test]
fn add_to_the_completed_pane_ticks_the_task() {
    let mut s = empty_session();
    s.add(Pane::Completed, "already done");
    assert_eq!(s.completed, vec![task("already done", true)]);
    assert!(s.active.is_empty());
}

#[test]
fn swap_exchanges_two_slots() {
    let mut s = empty_session();
    s.add(Pane::Active, "first");
    s.add(Pane::Active, "second");
    s.swap(Pane::Active, 0, 1);
    assert_eq!(s.active[0].text, "second");
    assert_eq!(s.active[1].text, "first");
}

#[test]
fn swap_out_of_range_or_equal_is_a_noop() {
    let mut s = empty_session();
    s.add(Pane::Active, "only");
    s.dirty = false;
    s.swap(Pane::Active, 0, 0);
    s.swap(Pane::Active, 0, 9);
    assert!(!s.dirty);
}

#[test]
fn session_pane_other_flips() {
    assert_eq!(Pane::Active.other(), Pane::Completed);
    assert_eq!(Pane::Completed.other(), Pane::Active);
}

#[test]
fn create_new_picks_a_name_without_writing() {
    let dir = tempfile::tempdir().unwrap();
    let ts = Timestamp {
        year: 2026,
        month: 5,
        day: 31,
        hour: 14,
        minute: 30,
    };
    let s = create_new(dir.path(), ts).unwrap();
    assert_eq!(s.filename, "2026-05-31_14-30.md");
    assert!(!s.dirty);
    // Nothing on disk until the first save.
    assert!(!dir.path().join(&s.filename).exists());
}

#[test]
fn save_then_load_round_trips() {
    let mut orig = empty_session();
    orig.timestamp = Some(ts_at(14, 30));
    orig.add(Pane::Active, "first");
    orig.add(Pane::Active, "second");
    orig.add(Pane::Completed, "done");
    let text = orig.contents();
    orig.mark_saved();
    assert!(!orig.dirty);

    let loaded = Session::from_contents(&orig.filename, &text).unwrap();
    assert_eq!(loaded.active.len(), 2);
    assert_eq!(loaded.completed.len(), 1);
    assert_eq!(loaded.active[0].text, "first");
    assert_eq!(loaded.completed[0].text, "done");
    assert_eq!(loaded.timestamp.unwrap().year, 2026);
    assert!(!loaded.dirty);
    assert_eq!(loaded, orig);
}

#[test]
fn load_propagates_parse_errors() {
    let bad = format!("- [ ] {}\n", "x".repeat(MAX_TASK_BYTES + 1));
    assert!(matches!(
        Session::from_contents("bad.md", &bad),
        Err(LoadError::Parse(_))
    ));
}

#[test]
fn pull_tasks_moves_the_named_task_and_completes_it_in_the_source() {
    let mut source = session_with(&["keep me", "take me"]);
    let mut target = session_with(&["already here"]);

    let moved = pull_tasks(&mut source, &mut target, &[(1, "take me".to_string())]);

    assert_eq!(moved, 1);
    assert_eq!(source.active.len(), 1);
    assert_eq!(source.active[0].text, "keep me");
    assert_eq!(source.completed.len(), 1);
    assert_eq!(source.completed[0].text, "take me");
    assert!(source.completed[0].done, "the source's copy reads as done");
    assert_eq!(target.active.len(), 2);
    assert_eq!(target.active[1].text, "take me");
    assert!(!target.active[1].done, "the target's copy is open work");
    assert!(source.dirty && target.dirty);
}

#[test]
fn pull_tasks_keeps_source_order_and_survives_unsorted_duplicate_indices() {
    // Removing low indices first would shift the ones still to come; the
    // target must still read in file order.
    let mut source = session_with(&["zero", "one", "two", "three"]);
    let mut target = session_with(&[]);

    let moved = pull_tasks(
        &mut source,
        &mut target,
        &[
            (3, "three".to_string()),
            (0, "zero".to_string()),
            (3, "three".to_string()),
        ],
    );

    assert_eq!(moved, 2, "the duplicate index counts once");
    let text: Vec<&str> = target.active.iter().map(|t| t.text.as_str()).collect();
    assert_eq!(text, ["zero", "three"]);
    let left: Vec<&str> = source.active.iter().map(|t| t.text.as_str()).collect();
    assert_eq!(left, ["one", "two"]);
    let done: Vec<&str> = source.completed.iter().map(|t| t.text.as_str()).collect();
    assert_eq!(done, ["zero", "three"]);
}

#[test]
fn pull_tasks_ignores_out_of_range_indices() {
    let mut source = session_with(&["only"]);
    let mut target = session_with(&[]);

    assert_eq!(
        pull_tasks(&mut source, &mut target, &[(9, "whatever".to_string())]),
        0
    );
    assert_eq!(source.active.len(), 1);
    assert!(target.active.is_empty());
    assert!(!source.dirty, "a no-op must not mark anything unsaved");
    assert!(!target.dirty);
}

#[test]
fn pull_tasks_with_no_indices_is_a_noop() {
    let mut source = session_with(&["only"]);
    let mut target = session_with(&[]);

    assert_eq!(pull_tasks(&mut source, &mut target, &[]), 0);
    assert!(!source.dirty);
    assert!(!target.dirty);
}

#[test]
fn pull_tasks_skips_a_task_that_is_already_done() {
    // Parsing files tasks by heading, not by checkbox, so a hand-written
    // `- [x]` under `## Active` lands in `active`.
    let mut source = session_with(&["open one"]);
    source.active.push(task("secretly done", true));
    source.dirty = false;
    let mut target = session_with(&[]);

    assert_eq!(
        pull_tasks(
            &mut source,
            &mut target,
            &[
                (0, "open one".to_string()),
                (1, "secretly done".to_string())
            ],
        ),
        1
    );
    assert_eq!(target.active.len(), 1);
    assert_eq!(target.active[0].text, "open one");
    assert_eq!(source.active.len(), 1, "the done one stays put");
    assert_eq!(source.active[0].text, "secretly done");
}

#[test]
fn pull_tasks_skips_a_stale_index_whose_text_no_longer_matches() {
    let mut source = session_with(&["changed underneath", "still here"]);
    let mut target = session_with(&[]);

    let moved = pull_tasks(
        &mut source,
        &mut target,
        &[(0, "stale text".to_string()), (1, "still here".to_string())],
    );

    assert_eq!(moved, 1, "only the entry whose text still matches moves");
    assert_eq!(source.active.len(), 1, "the stale one is left in place");
    assert_eq!(source.active[0].text, "changed underneath");
    assert_eq!(target.active.len(), 1);
    assert_eq!(target.active[0].text, "still here");
}

#[test]
fn pull_keeps_the_number_of_source_tasks() {
    // What leaves the active list arrives in the completed one.
    let mut source = session_with(&["a", "b", "c"]);
    let mut target = session_with(&[]);
    pull_tasks(&mut source, &mut target, &[(2, "c".to_string()), (0, "a".to_string())]);
    assert_eq!(source.active.len() + source.completed.len(), 3);
    assert_eq!(target.active.len(), 2);
}

fn saved(hour: u8, minute: u8, tasks: &[&str]) -> (Session, String) {
    let mut s = empty_session();
    s.filename = format!("2026-05-31_{hour:02}-{minute:02}.md");
    s.timestamp = Some(ts_at(hour, minute));
    for t in tasks {
        s.add(Pane::Active, t);
    }
    let text = s.contents();
    s.mark_saved();
    (s, text)
}

#[test]
fn pull_from_file_updates_both_files_on_disk() {
    let (old, old_text) = saved(14, 30, &["carry me", "leave me"]);
    let (mut current, _) = saved(16, 45, &[]);

    let w = pull_from_file(
        &old.filename,
        &old_text,
        &mut current,
        &[(0, "carry me".to_string())],
    )
    .unwrap();
    assert_eq!(w.moved, 1);
    assert_eq!(w.writes.len(), 2);
    assert_eq!(w.writes[0].filename, current.filename);
    assert_eq!(w.writes[1].filename, old.filename);

    let source = Session::from_contents(&old.filename, &w.writes[1].contents).unwrap();
    assert_eq!(source.active.len(), 1);
    assert_eq!(source.active[0].text, "leave me");
    assert_eq!(source.completed[0].text, "carry me");
    assert!(source.completed[0].done);

    let target = Session::from_contents(&current.filename, &w.writes[0].contents).unwrap();
    assert_eq!(target.active[0].text, "carry me");
    assert!(!target.active[0].done);
    assert_eq!(current.active, target.active);
}

#[test]
fn a_fully_drained_source_reaches_zero_open() {
    let (old, old_text) = saved(14, 30, &["one", "two"]);
    let (mut current, _) = saved(16, 45, &[]);
    let w = pull_from_file(
        &old.filename,
        &old_text,
        &mut current,
        &[(0, "one".to_string()), (1, "two".to_string())],
    )
    .unwrap();
    assert_eq!(count_tasks(&w.writes[1].contents).open, 0);
}

#[test]
fn pull_from_file_propagates_an_unparseable_source() {
    let bad = format!("- [ ] {}\n", "x".repeat(MAX_TASK_BYTES + 1));
    let (mut current, _) = saved(16, 45, &["mine"]);
    let before = current.clone();
    let err = pull_from_file("bad.md", &bad, &mut current, &[(0, "whatever".to_string())])
        .unwrap_err();
    assert!(matches!(err, PullError::LoadSource { ref name, .. } if name == "bad.md"));
    assert_eq!(current, before);
}

#[test]
fn pulling_nothing_writes_nothing() {
    let (old, old_text) = saved(14, 30, &["stays"]);
    let (mut current, _) = saved(16, 45, &[]);
    let w = pull_from_file(&old.filename, &old_text, &mut current, &[]).unwrap();
    assert_eq!(w.moved, 0);
    assert!(w.writes.is_empty(), "an empty pull must not create the target file");
    assert!(!current.dirty);
}
