use caleb::app::{App, Hit, Mode, Request};
use caleb::input::{Event, KeyCode, KeyEvent, MouseButton, MouseEvent, MouseKind, Rect};
use caleb::model::{Pane, MAX_TASK_BYTES};
use caleb::session::Session;
use caleb::ui::PaneRects;
use caleb::ui::Overlay;

const MS: u64 = 1_000_000;

fn session_with(active: &[&str]) -> Session {
    let mut session = Session {
        filename: "x.md".to_string(),
        timestamp: None,
        active: Vec::new(),
        completed: Vec::new(),
        dirty: false,
    };
    for t in active {
        session.add(Pane::Active, t);
    }
    session.dirty = false;
    session
}

fn app_with(tasks: &[&str]) -> App {
    App::new(session_with(tasks))
}

fn press(app: &mut App, c: char) -> Request {
    app.handle_key(KeyEvent::new(KeyCode::Char(c)))
}

fn press_code(app: &mut App, code: KeyCode) -> Request {
    app.handle_key(KeyEvent::new(code))
}

#[test]
fn q_sets_quit() {
    let mut app = app_with(&[]);
    press(&mut app, 'q');
    assert!(app.screen.quit);
}

#[test]
fn j_moves_down_within_bounds() {
    let mut app = app_with(&["a", "b"]);
    press(&mut app, 'j');
    assert_eq!(app.screen.active_cursor, 1);
    press(&mut app, 'j');
    assert_eq!(app.screen.active_cursor, 1);
}

#[test]
fn k_moves_up_and_stops_at_zero() {
    let mut app = app_with(&["a", "b"]);
    press(&mut app, 'j');
    press(&mut app, 'k');
    assert_eq!(app.screen.active_cursor, 0);
    press(&mut app, 'k');
    assert_eq!(app.screen.active_cursor, 0);
}

#[test]
fn h_and_l_switch_panes() {
    let mut app = app_with(&[]);
    press(&mut app, 'l');
    assert_eq!(app.screen.focused, Pane::Completed);
    press(&mut app, 'h');
    assert_eq!(app.screen.focused, Pane::Active);
}

#[test]
fn g_and_shift_g_jump_to_ends() {
    let mut app = app_with(&["a", "b", "c"]);
    press(&mut app, 'G');
    assert_eq!(app.screen.active_cursor, 2);
    press(&mut app, 'g');
    assert_eq!(app.screen.active_cursor, 0);
}

#[test]
fn space_toggles_across_panes() {
    let mut app = app_with(&["thing"]);
    press(&mut app, ' ');
    assert!(app.session.active.is_empty());
    assert_eq!(app.session.completed.len(), 1);
    assert_eq!(app.screen.active_cursor, 0);
}

#[test]
fn d_deletes_the_selected_task() {
    let mut app = app_with(&["a", "b"]);
    press(&mut app, 'd');
    assert_eq!(app.session.active.len(), 1);
    assert_eq!(app.session.active[0].text, "b");
}

#[test]
fn s_asks_the_loop_to_save() {
    let mut app = app_with(&["a"]);
    assert_eq!(press(&mut app, 's'), Request::Save);
    assert_eq!(press(&mut app, 'j'), Request::Continue);
}

#[test]
fn a_enters_add_mode() {
    let mut app = app_with(&[]);
    press(&mut app, 'a');
    assert_eq!(app.screen.mode, Mode::AddInput);
    assert!(app.input.is_empty());
}

#[test]
fn typing_then_enter_creates_a_task() {
    let mut app = app_with(&[]);
    press(&mut app, 'a');
    for c in "hello world".chars() {
        press(&mut app, c);
    }
    assert_eq!(app.input, "hello world");
    press_code(&mut app, KeyCode::Enter);
    assert_eq!(app.screen.mode, Mode::Normal);
    assert_eq!(app.session.active[0].text, "hello world");
}

#[test]
fn enter_on_empty_input_adds_nothing() {
    let mut app = app_with(&[]);
    press(&mut app, 'a');
    press_code(&mut app, KeyCode::Enter);
    assert!(app.session.active.is_empty());
    assert_eq!(app.screen.mode, Mode::Normal);
}

#[test]
fn esc_cancels_add_mode_and_discards() {
    let mut app = app_with(&[]);
    press(&mut app, 'a');
    press(&mut app, 'x');
    press_code(&mut app, KeyCode::Esc);
    assert_eq!(app.screen.mode, Mode::Normal);
    assert!(app.input.is_empty());
    assert!(app.session.active.is_empty());
}

#[test]
fn backspace_pops_a_whole_utf8_character() {
    let mut app = app_with(&[]);
    press(&mut app, 'a');
    for c in "abé".chars() {
        press(&mut app, c);
    }
    assert_eq!(app.input.len(), 4); // é is 2 bytes
    press_code(&mut app, KeyCode::Backspace);
    assert_eq!(app.input, "ab");
    press_code(&mut app, KeyCode::Backspace);
    assert_eq!(app.input, "a");
}

#[test]
fn input_stops_at_the_byte_cap() {
    let mut app = app_with(&[]);
    press(&mut app, 'a');
    for _ in 0..200 {
        press(&mut app, 'x');
    }
    assert_eq!(app.input.len(), MAX_TASK_BYTES);
}

#[test]
fn multibyte_char_is_rejected_whole_at_the_byte_cap() {
    let mut app = app_with(&[]);
    press(&mut app, 'a');
    for _ in 0..149 {
        press(&mut app, 'x');
    }
    assert_eq!(app.input.len(), 149);
    // 'é' is 2 bytes: 149 + 2 = 151 > 150, so it must be rejected whole.
    press(&mut app, 'é');
    assert_eq!(app.input.len(), 149);
    assert!(!app.input.ends_with('é'));
}

#[test]
fn multibyte_char_fits_exactly_at_the_byte_cap() {
    let mut app = app_with(&[]);
    press(&mut app, 'a');
    for _ in 0..148 {
        press(&mut app, 'x');
    }
    // 148 + 2 = 150 == MAX_TASK_BYTES, so it must be accepted.
    press(&mut app, 'é');
    assert_eq!(app.input.len(), MAX_TASK_BYTES);
    assert!(app.input.ends_with('é'));
}

#[test]
fn control_characters_never_reach_the_input() {
    let mut app = app_with(&[]);
    press(&mut app, 'a');
    press(&mut app, '\u{7}');
    press(&mut app, '\u{85}');
    press(&mut app, 'k');
    assert_eq!(app.input, "k");
}

#[test]
fn shift_j_swaps_with_the_next_task() {
    let mut app = app_with(&["first", "second"]);
    press(&mut app, 'J');
    assert_eq!(app.session.active[0].text, "second");
    assert_eq!(app.session.active[1].text, "first");
    assert_eq!(app.screen.active_cursor, 1);
}

#[test]
fn shift_k_swaps_with_the_previous_task() {
    let mut app = app_with(&["first", "second"]);
    press(&mut app, 'j');
    press(&mut app, 'K');
    assert_eq!(app.session.active[0].text, "second");
    assert_eq!(app.screen.active_cursor, 0);
}

#[test]
fn question_mark_opens_help_and_any_key_dismisses() {
    let mut app = app_with(&[]);
    press(&mut app, '?');
    assert_eq!(app.screen.mode, Mode::Help);
    press(&mut app, 'j');
    assert_eq!(app.screen.mode, Mode::Normal);
    // The dismissing key must not also move the cursor.
    assert_eq!(app.screen.active_cursor, 0);
}

#[test]
fn arrow_keys_mirror_hjkl() {
    let mut app = app_with(&["a", "b"]);
    press_code(&mut app, KeyCode::Down);
    assert_eq!(app.screen.active_cursor, 1);
    press_code(&mut app, KeyCode::Right);
    assert_eq!(app.screen.focused, Pane::Completed);
    press_code(&mut app, KeyCode::Left);
    assert_eq!(app.screen.focused, Pane::Active);
}

#[test]
fn scroll_clamp_keeps_the_cursor_visible() {
    let mut app = app_with(&["a", "b", "c", "d", "e", "f"]);
    app.screen.active_cursor = 5;
    // Pane 8 rows tall -> 6 inner rows -> 3 visible tasks.
    app.adjust_scroll(8);
    assert_eq!(app.screen.active_scroll, 3);
}

#[test]
fn scroll_clamp_never_passes_the_end() {
    let mut app = app_with(&["a", "b", "c", "d"]);
    app.screen.active_cursor = 2;
    app.screen.active_scroll = 99;
    app.adjust_scroll(8);
    assert_eq!(app.screen.active_scroll, 1);
}

#[test]
fn clamp_cursors_pulls_back_past_the_end() {
    let mut app = app_with(&["a", "b"]);
    app.screen.active_cursor = 5;
    app.clamp_cursors();
    assert_eq!(app.screen.active_cursor, 1);
    app.session.active.clear();
    app.clamp_cursors();
    assert_eq!(app.screen.active_cursor, 0);
}

fn app_with_layout(active: &[&str], completed: &[&str]) -> App {
    let mut app = app_with(active);
    for t in completed {
        app.session.add(Pane::Completed, t);
    }
    app.session.dirty = false;
    // Mirrors a 40x10 frame: panes occupy rows 1..=8, 20 cols each.
    app.screen.pane_rects = PaneRects {
        active: Rect {
            x: 0,
            y: 1,
            width: 20,
            height: 8,
        },
        completed: Rect {
            x: 20,
            y: 1,
            width: 20,
            height: 8,
        },
    };
    app
}

#[test]
fn handle_event_ignores_key_releases() {
    let mut app = app_with(&["a", "b"]);
    let release = KeyEvent {
        code: KeyCode::Char('d'),
        control: false,
        press: false,
    };
    app.handle_event(Event::Key(release), 0, 8);
    assert_eq!(app.session.active.len(), 2, "release must not delete");

    let down = KeyEvent::new(KeyCode::Char('d'));
    app.handle_event(Event::Key(down), 0, 8);
    assert_eq!(app.session.active.len(), 1, "press must delete");
}

#[test]
fn handle_event_ignores_resize() {
    let mut app = app_with(&["a"]);
    app.handle_event(Event::Resize(10, 10), 0, 8);
    assert_eq!(app.session.active.len(), 1);
    assert!(!app.screen.quit);
}

#[test]
fn handle_event_pairs_wheel_scroll_with_the_cursor_preserving_clamp() {
    let tasks: Vec<String> = (0..10).map(|i| format!("task{i}")).collect();
    let refs: Vec<&str> = tasks.iter().map(String::as_str).collect();
    let mut app = app_with(&refs);
    app.screen.pane_rects = PaneRects {
        active: Rect::new(0, 3, 20, 8),
        completed: Rect::new(20, 3, 20, 8),
    };

    let wheel = click(MouseKind::ScrollDown, 5, 5);
    app.handle_event(Event::Mouse(wheel), 0, 8);
    assert_eq!(app.screen.active_scroll, 1);
    assert_eq!(app.screen.active_cursor, 0, "wheel leaves the cursor put");

    // A key event re-syncs the offset to the cursor.
    app.handle_event(Event::Key(KeyEvent::new(KeyCode::Char('g'))), 0, 8);
    assert_eq!(app.screen.active_scroll, 0);
}

fn click(kind: MouseKind, col: u16, row: u16) -> MouseEvent {
    MouseEvent {
        kind,
        column: col,
        row,
    }
}

fn down(col: u16, row: u16) -> MouseEvent {
    click(MouseKind::Down(MouseButton::Left), col, row)
}

#[test]
fn hit_test_finds_a_task_on_its_content_row() {
    let app = app_with_layout(&["a", "b"], &[]);
    // Pane top border row 1, inner rows 2..=7. Task 0 content is row 3.
    assert_eq!(
        app.hit_test(5, 3),
        Some(Hit::Task {
            pane: Pane::Active,
            index: 0
        })
    );
    assert_eq!(
        app.hit_test(5, 5),
        Some(Hit::Task {
            pane: Pane::Active,
            index: 1
        })
    );
}

#[test]
fn hit_test_maps_a_spacer_row_to_its_task() {
    let app = app_with_layout(&["a", "b"], &[]);
    assert_eq!(
        app.hit_test(5, 2),
        Some(Hit::Task {
            pane: Pane::Active,
            index: 0
        })
    );
    assert_eq!(
        app.hit_test(5, 4),
        Some(Hit::Task {
            pane: Pane::Active,
            index: 1
        })
    );
}

#[test]
fn hit_test_past_the_end_is_a_pane_hit() {
    let app = app_with_layout(&["a"], &[]);
    assert_eq!(app.hit_test(5, 7), Some(Hit::Pane(Pane::Active)));
}

#[test]
fn hit_test_resolves_the_right_pane() {
    let app = app_with_layout(&[], &["done"]);
    assert_eq!(
        app.hit_test(25, 3),
        Some(Hit::Task {
            pane: Pane::Completed,
            index: 0
        })
    );
}

#[test]
fn hit_test_on_a_border_is_a_pane_hit() {
    let app = app_with_layout(&["a"], &[]);
    assert_eq!(app.hit_test(0, 1), Some(Hit::Pane(Pane::Active)));
}

#[test]
fn hit_test_outside_every_pane_is_none() {
    let app = app_with_layout(&["a"], &[]);
    assert_eq!(app.hit_test(5, 0), None); // header
    assert_eq!(app.hit_test(5, 9), None); // status bar
}

#[test]
fn hit_test_accounts_for_scroll() {
    let mut app = app_with_layout(&["a", "b", "c", "d", "e"], &[]);
    app.screen.active_scroll = 2;
    assert_eq!(
        app.hit_test(5, 3),
        Some(Hit::Task {
            pane: Pane::Active,
            index: 2
        })
    );
}

#[test]
fn click_selects_a_task_and_moves_focus() {
    let mut app = app_with_layout(&["a"], &["done"]);
    let t0 = 1_000 * MS;
    app.handle_mouse(down(25, 3), t0);
    assert_eq!(app.screen.focused, Pane::Completed);
    assert_eq!(app.screen.completed_cursor, 0);
}

#[test]
fn click_on_empty_pane_area_only_moves_focus() {
    let mut app = app_with_layout(&["a"], &[]);
    app.screen.active_cursor = 0;
    let t0 = 1_000 * MS;
    app.handle_mouse(down(25, 5), t0);
    assert_eq!(app.screen.focused, Pane::Completed);
    assert_eq!(app.screen.completed_cursor, 0);
}

#[test]
fn double_click_toggles_the_task() {
    let mut app = app_with_layout(&["thing"], &[]);
    let t0 = 1_000 * MS;
    app.handle_mouse(down(5, 3), t0);
    app.handle_mouse(down(5, 3), t0 + 200 * MS);
    assert!(app.session.active.is_empty());
    assert_eq!(app.session.completed.len(), 1);
}

#[test]
fn slow_second_click_does_not_toggle() {
    let mut app = app_with_layout(&["thing"], &[]);
    let t0 = 1_000 * MS;
    app.handle_mouse(down(5, 3), t0);
    app.handle_mouse(down(5, 3), t0 + 900 * MS);
    assert_eq!(app.session.active.len(), 1);
}

#[test]
fn second_click_on_a_different_task_does_not_toggle() {
    let mut app = app_with_layout(&["a", "b"], &[]);
    let t0 = 1_000 * MS;
    app.handle_mouse(down(5, 3), t0);
    app.handle_mouse(down(5, 5), t0 + 100 * MS);
    assert_eq!(app.session.active.len(), 2);
    assert_eq!(app.screen.active_cursor, 1);
}

#[test]
fn wheel_scrolls_the_focused_pane_without_moving_the_cursor() {
    let mut app = app_with_layout(&["a", "b", "c", "d", "e", "f"], &[]);
    let t0 = 1_000 * MS;
    app.handle_mouse(click(MouseKind::ScrollDown, 5, 3), t0);
    assert_eq!(app.screen.active_scroll, 1);
    assert_eq!(app.screen.active_cursor, 0);
    app.handle_mouse(click(MouseKind::ScrollUp, 5, 3), t0);
    assert_eq!(app.screen.active_scroll, 0);
}

#[test]
fn mouse_is_ignored_in_add_mode() {
    let mut app = app_with_layout(&["a"], &[]);
    app.screen.mode = Mode::AddInput;
    let t0 = 1_000 * MS;
    app.handle_mouse(down(25, 3), t0);
    assert_eq!(app.screen.focused, Pane::Active);
}

#[test]
fn click_dismisses_the_help_overlay() {
    let mut app = app_with_layout(&["a"], &[]);
    app.screen.mode = Mode::Help;
    let t0 = 1_000 * MS;
    app.handle_mouse(down(5, 3), t0);
    assert_eq!(app.screen.mode, Mode::Normal);
}

#[test]
fn mouse_up_does_not_trigger_selection() {
    let mut app = app_with_layout(&["a"], &["done"]);
    let t0 = 1_000 * MS;
    app.handle_mouse(click(MouseKind::Up(MouseButton::Left), 25, 3), t0);
    assert_eq!(app.screen.focused, Pane::Active);
}

#[test]
fn p_asks_for_a_pull_in_normal_mode_only() {
    let mut app = app_with(&["a"]);
    assert_eq!(press(&mut app, 'p'), Request::Pull);
    press(&mut app, 'a');
    assert_eq!(press(&mut app, 'p'), Request::Continue);
    assert_eq!(app.input, "p", "in the add field p is a letter");
}

#[test]
fn a_landed_pull_puts_the_cursor_on_the_first_arrival() {
    let mut app = app_with(&["mine", "pulled one", "pulled two"]);
    press(&mut app, 'l');
    app.land_pull(2);
    assert_eq!(app.screen.focused, Pane::Active);
    assert_eq!(app.screen.active_cursor, 1);
}

#[test]
fn the_overlay_follows_the_mode() {
    let mut app = app_with(&[]);
    assert_eq!(app.overlay(), Overlay::Off);
    press(&mut app, 'a');
    press(&mut app, 'h');
    assert_eq!(app.overlay(), Overlay::Input("h"));
    press_code(&mut app, KeyCode::Esc);
    press(&mut app, '?');
    assert_eq!(app.overlay(), Overlay::Help);
}

#[test]
fn leaving_saves_only_unsaved_work() {
    let mut app = app_with(&["a"]);
    assert!(!app.save_on_exit());
    press_code(&mut app, KeyCode::Char('x'));
    assert_eq!(app.save_on_exit(), app.session.dirty);
    app.session.add(Pane::Active, "b");
    assert!(app.save_on_exit());
    app.session.mark_saved();
    assert!(!app.save_on_exit());
}
