//! Crossing module boundaries through the public API: session, markdown,
//! picker and pull together, with file contents standing in for the disk.

use caleb::markdown::count_tasks;
use caleb::model::{Pane, Timestamp, MAX_TASK_BYTES};
use caleb::picker::session_entries;
use caleb::pull::candidates;
use caleb::session::{pull_from_file, Session};

fn ts(hour: u8, minute: u8) -> Timestamp {
    Timestamp {
        year: 2026,
        month: 5,
        day: 31,
        hour,
        minute,
    }
}

fn session(hour: u8, minute: u8) -> Session {
    Session {
        filename: format!("2026-05-31_{hour:02}-{minute:02}.md"),
        timestamp: Some(ts(hour, minute)),
        active: Vec::new(),
        completed: Vec::new(),
        dirty: false,
    }
}

#[test]
fn the_on_disk_format_is_stable_across_a_save_load_save_cycle() {
    let mut s = session(9, 5);
    s.add(Pane::Active, "still open");
    s.add(Pane::Completed, "already done");
    let first = s.contents();

    let reloaded = Session::from_contents(&s.filename, &first).unwrap();
    let second = reloaded.contents();
    assert_eq!(first, second, "a load/save cycle must not perturb the file");
}

#[test]
fn a_hand_written_file_parses_into_the_expected_panes() {
    let s = Session::from_contents(
        "2026-05-31_14-30.md",
        "# Session 2026-05-31 14:30\n\n## Active\n\n- [ ] one\n\n## Completed\n\n- [x] two\n",
    )
    .unwrap();
    assert_eq!(s.timestamp, Some(ts(14, 30)));
    assert_eq!(s.active[0].text, "one");
    assert_eq!(s.completed[0].text, "two");
    assert!(!s.dirty, "a freshly loaded session is not dirty");
}

#[test]
fn the_picker_still_counts_a_file_that_is_too_malformed_to_open() {
    let long = "x".repeat(MAX_TASK_BYTES + 1);
    let text = format!("# Session 2026-05-31 14:30\n\n## Active\n\n- [ ] {long}\n- [x] fine\n");
    assert!(Session::from_contents("2026-05-31_14-30.md", &text).is_err());

    let entries = session_entries(vec![("2026-05-31_14-30.md".to_string(), text.clone())]);
    assert_eq!(entries.len(), 1);
    assert_eq!(entries[0].open, 1);
    assert_eq!(entries[0].total, 2);
    assert_eq!(count_tasks(&text).total, 2);
}

#[test]
fn pulled_tasks_cross_the_file_boundary_and_are_not_offered_twice() {
    let mut old = session(14, 30);
    old.add(Pane::Active, "carry me");
    old.add(Pane::Active, "and me");
    old.add(Pane::Active, "not me");
    let old_text = old.contents();

    let mut current = session(16, 45);
    let w = pull_from_file(
        &old.filename,
        &old_text,
        &mut current,
        &[(0, "carry me".to_string()), (1, "and me".to_string())],
    )
    .unwrap();
    assert_eq!(w.moved, 2);

    let source = Session::from_contents(&old.filename, &w.writes[1].contents).unwrap();
    assert_eq!(source.active.len(), 1);
    assert_eq!(source.active[0].text, "not me");
    let done: Vec<&str> = source.completed.iter().map(|t| t.text.as_str()).collect();
    assert_eq!(done, ["carry me", "and me"]);

    let target = Session::from_contents(&current.filename, &w.writes[0].contents).unwrap();
    let carried: Vec<&str> = target.active.iter().map(|t| t.text.as_str()).collect();
    assert_eq!(carried, ["carry me", "and me"]);
    assert!(target.active.iter().all(|t| !t.done));

    // A second trip through the pull screens offers only what stayed behind.
    let entries = session_entries(vec![
        (old.filename.clone(), w.writes[1].contents.clone()),
        (current.filename.clone(), w.writes[0].contents.clone()),
    ]);
    let offered = candidates(&entries, &current.filename);
    assert_eq!(offered.len(), 1);
    assert_eq!(offered[0].name, old.filename);
    assert_eq!(offered[0].open, vec![(0, "not me".to_string())]);
}
