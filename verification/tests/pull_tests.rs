use caleb::input::KeyCode;
use caleb::markdown::count_tasks;
use caleb::picker::Entry;
use caleb::pull::{candidates, session_row, task_row, Candidate, PullState, Pulled, Stage, Step};

fn entry(name: &str, contents: &str) -> Entry {
    let counts = count_tasks(contents);
    Entry {
        name: name.to_string(),
        open: counts.open,
        total: counts.total,
        contents: contents.to_string(),
    }
}

const TWO_OPEN: &str = "# Session 2026-05-31 14:30\n\n## Active\n\n- [ ] alpha\n- [ ] beta\n\n## Completed\n\n- [x] gamma\n";

fn state() -> PullState {
    PullState::new(&[entry("2026-05-31_14-30.md", TWO_OPEN)], "current.md")
}

#[test]
fn candidates_carry_each_open_tasks_index_and_text() {
    let got = candidates(&[entry("a.md", TWO_OPEN)], "current.md");
    assert_eq!(got.len(), 1);
    assert_eq!(got[0].name, "a.md");
    assert_eq!(
        got[0].open,
        vec![(0, "alpha".to_string()), (1, "beta".to_string())]
    );
}

#[test]
fn candidates_exclude_the_current_session() {
    assert!(candidates(&[entry("current.md", TWO_OPEN)], "current.md").is_empty());
}

#[test]
fn candidates_exclude_sessions_with_nothing_open() {
    let done = "## Completed\n\n- [x] finished\n";
    assert!(candidates(&[entry("a.md", done)], "current.md").is_empty());
}

#[test]
fn candidates_ignore_an_open_line_filed_under_completed() {
    let odd = "## Completed\n\n- [ ] hand written in the wrong place\n";
    assert_eq!(count_tasks(odd).open, 1, "precondition");
    assert!(candidates(&[entry("a.md", odd)], "current.md").is_empty());
}

#[test]
fn candidates_skip_a_task_that_is_done_but_filed_under_active() {
    let odd = "## Active\n\n- [x] already done\n- [ ] real work\n";
    let got = candidates(&[entry("a.md", odd)], "current.md");
    assert_eq!(got[0].open, vec![(1, "real work".to_string())]);
}

#[test]
fn candidates_drop_a_file_that_cannot_be_parsed() {
    let bad = format!("## Active\n\n- [ ] {}\n", "x".repeat(200));
    assert!(candidates(&[entry("bad.md", &bad)], "current.md").is_empty());
}

#[test]
fn enter_on_a_session_opens_its_tasks_all_selected() {
    let mut s = state();
    assert_eq!(s.on_key(KeyCode::Enter), Step::Stay);
    assert_eq!(s.stage(), Stage::Tasks);
    assert_eq!(s.selected().to_vec(), vec![true, true]);
    assert_eq!(s.task_cursor(), 0);
}

#[test]
fn space_toggles_the_task_under_the_cursor() {
    let mut s = state();
    s.on_key(KeyCode::Enter);
    s.on_key(KeyCode::Char(' '));
    assert_eq!(s.selected().to_vec(), vec![false, true]);
    s.on_key(KeyCode::Char(' '));
    assert_eq!(s.selected().to_vec(), vec![true, true]);
}

#[test]
fn a_selects_everything_unless_everything_is_already_selected() {
    let mut s = state();
    s.on_key(KeyCode::Enter);
    s.on_key(KeyCode::Char('a'));
    assert_eq!(s.selected().to_vec(), vec![false, false], "all selected -> clear");
    s.on_key(KeyCode::Char('a'));
    assert_eq!(s.selected().to_vec(), vec![true, true], "any clear -> select all");

    s.on_key(KeyCode::Char(' '));
    assert_eq!(s.selected().to_vec(), vec![false, true], "precondition: a mix");
    s.on_key(KeyCode::Char('a'));
    assert_eq!(s.selected().to_vec(), vec![true, true], "a mix selects all");
}

#[test]
fn enter_pulls_the_selected_indices_in_ascending_order() {
    let mut s = state();
    s.on_key(KeyCode::Enter);
    s.on_key(KeyCode::Char(' ')); // clear index 0
    let step = s.on_key(KeyCode::Enter);
    assert_eq!(
        step,
        Step::Pull(Pulled {
            source: "2026-05-31_14-30.md".to_string(),
            indices: vec![1],
        })
    );
}

#[test]
fn enter_on_an_empty_selection_does_nothing() {
    let mut s = state();
    s.on_key(KeyCode::Enter);
    s.on_key(KeyCode::Char('a')); // clear all
    assert_eq!(s.on_key(KeyCode::Enter), Step::Stay);
    assert_eq!(s.stage(), Stage::Tasks, "and it stays on the screen");
}

#[test]
fn esc_in_the_task_stage_goes_back_with_the_session_cursor_intact() {
    let two = vec![
        entry("2026-05-31_14-30.md", TWO_OPEN),
        entry("2026-05-30_09-00.md", TWO_OPEN),
    ];
    let mut s = PullState::new(&two, "current.md");
    s.on_key(KeyCode::Char('j'));
    assert_eq!(s.session_cursor(), 1);

    s.on_key(KeyCode::Enter);
    assert_eq!(s.on_key(KeyCode::Esc), Step::Stay);
    assert_eq!(s.stage(), Stage::Sessions);
    assert_eq!(s.session_cursor(), 1, "the cursor must not reset");
}

#[test]
fn esc_in_the_session_stage_cancels() {
    let mut s = state();
    assert_eq!(s.on_key(KeyCode::Esc), Step::Cancel);
}

#[test]
fn q_cancels_from_either_stage() {
    let mut s = state();
    assert_eq!(s.on_key(KeyCode::Char('q')), Step::Cancel);

    let mut s = state();
    s.on_key(KeyCode::Enter);
    assert_eq!(s.on_key(KeyCode::Char('q')), Step::Cancel);
}

#[test]
fn cursors_clamp_at_both_ends() {
    let mut s = state();
    s.on_key(KeyCode::Char('k'));
    assert_eq!(s.session_cursor(), 0, "already at the top");
    s.on_key(KeyCode::Char('j'));
    assert_eq!(s.session_cursor(), 0, "only one session to sit on");

    s.on_key(KeyCode::Enter);
    s.on_key(KeyCode::Down);
    assert_eq!(s.task_cursor(), 1);
    s.on_key(KeyCode::Down);
    assert_eq!(s.task_cursor(), 1, "two tasks, so index 1 is the end");
    s.on_key(KeyCode::Up);
    s.on_key(KeyCode::Up);
    assert_eq!(s.task_cursor(), 0);
}

#[test]
fn every_key_cancels_when_there_is_nothing_to_pull() {
    for code in [
        KeyCode::Enter,
        KeyCode::Char('j'),
        KeyCode::Char(' '),
        KeyCode::Esc,
    ] {
        let mut s = PullState::new(&[], "current.md");
        assert!(s.is_empty());
        assert_eq!(s.on_key(code), Step::Cancel, "{code:?} must cancel");
    }
}

#[test]
fn a_session_row_lines_up_its_count() {
    let c = Candidate {
        name: "2026-05-31_14-30.md".to_string(),
        open: vec![(0, "alpha".to_string()), (1, "beta".to_string())],
    };
    let row = session_row(&c, true);
    assert_eq!(row, format!("\u{25b8} 2026-05-31  14:30{}2 open", " ".repeat(9)));
    assert!(session_row(&c, false).starts_with("  2026"));
}

#[test]
fn a_task_row_shows_its_checkbox() {
    assert_eq!(task_row("alpha", true, true), "\u{25b8} [x] alpha");
    assert_eq!(task_row("beta", false, false), "  [ ] beta");
}

#[test]
fn picked_tasks_carry_their_text() {
    let mut s = state();
    s.on_key(KeyCode::Enter);
    s.on_key(KeyCode::Char(' '));
    assert_eq!(s.picked_tasks(), vec![(1, "beta".to_string())]);
    s.on_key(KeyCode::Char(' '));
    assert_eq!(
        s.picked_tasks(),
        vec![(0, "alpha".to_string()), (1, "beta".to_string())]
    );
}
