use caleb::input::{Event, KeyCode, KeyEvent, MouseButton, MouseEvent, MouseKind};
use caleb::model::Timestamp;
use caleb::picker::summary_line;
use caleb::storage::format_file_stem;
use caleb::picker::{line_kind, LineKind};
use caleb::picker::{
    clamp_scroll, confirm_key, filter_visible, is_session_file, preview_fits, pretty_name,
    row_text, session_entries, show_all_on_open, wrapped_lines, Choice, Confirm, Entry, Picker,
    PickerAction, ROW_WIDTH,
};

fn entry(name: &str, open: u32, total: u32) -> Entry {
    entry_with(name, open, total, "")
}

fn entry_with(name: &str, open: u32, total: u32, contents: &str) -> Entry {
    Entry {
        name: name.to_string(),
        open,
        total,
        contents: contents.to_string(),
    }
}

#[test]
fn filter_hides_fully_completed_sessions_by_default() {
    let entries = vec![
        entry("2026-05-31_14-30.md", 1, 3),
        entry("2026-05-30_10-00.md", 0, 5),
    ];
    let visible = filter_visible(&entries, false);
    assert_eq!(visible.len(), 1);
    assert_eq!(visible[0].name, "2026-05-31_14-30.md");
}

#[test]
fn filter_show_all_includes_finished_sessions() {
    let entries = vec![
        entry("2026-05-31_14-30.md", 1, 3),
        entry("2026-05-30_10-00.md", 0, 5),
    ];
    assert_eq!(filter_visible(&entries, true).len(), 2);
}

#[test]
fn pretty_name_formats_the_timestamp() {
    assert_eq!(pretty_name("2026-05-31_14-30.md"), "2026-05-31  14:30");
}

#[test]
fn pretty_name_keeps_collision_suffixes() {
    assert_eq!(pretty_name("2026-05-31_14-30-2.md"), "2026-05-31  14:30-2");
}

#[test]
fn pretty_name_passes_through_unrecognized_names() {
    assert_eq!(pretty_name("notes.md"), "notes.md");
}

#[test]
fn pretty_name_does_not_split_a_multibyte_char() {
    // Positions 4/7/10/13 are the expected separators, but the minute
    // field runs into a 2-byte char.
    let name = "2026-05-31_14-3é.md";
    assert_eq!(pretty_name(name), name);
}

#[test]
fn pretty_name_formats_a_stem_without_the_extension_too() {
    assert_eq!(pretty_name("2026-05-31_14-30"), "2026-05-31  14:30");
}

#[test]
fn y_confirms_the_delete() {
    assert_eq!(confirm_key(KeyCode::Char('y')), Confirm::Delete);
}

#[test]
fn n_cancels_the_delete() {
    assert_eq!(confirm_key(KeyCode::Char('n')), Confirm::Cancel);
}

#[test]
fn any_unrecognized_key_cancels_rather_than_deleting() {
    for code in [
        KeyCode::Esc,
        KeyCode::Enter,
        KeyCode::Char('d'),
        KeyCode::Char('Y'),
        KeyCode::Down,
    ] {
        assert_eq!(confirm_key(code), Confirm::Cancel, "{code:?} must cancel");
    }
}

#[test]
fn opening_a_store_of_only_finished_sessions_shows_them_all() {
    let entries = vec![entry("a.md", 0, 3), entry("b.md", 0, 1)];
    assert!(show_all_on_open(&entries));
}

#[test]
fn opening_a_store_with_unfinished_work_does_not_show_all() {
    let entries = vec![entry("a.md", 0, 3), entry("b.md", 2, 4)];
    assert!(!show_all_on_open(&entries));
}

#[test]
fn opening_an_empty_store_does_not_show_all() {
    assert!(!show_all_on_open(&[]));
}

#[test]
fn the_preview_fits_at_eighty_columns() {
    assert!(preview_fits(80));
}

#[test]
fn the_preview_is_dropped_below_eighty_columns() {
    assert!(!preview_fits(79));
    assert!(!preview_fits(0));
}

#[test]
fn scrolling_stops_with_the_last_line_on_screen() {
    // 30 lines in a 10-row pane: the furthest useful offset is 20.
    assert_eq!(clamp_scroll(25, 30, 10), 20);
    assert_eq!(clamp_scroll(5, 30, 10), 5);
}

#[test]
fn content_shorter_than_the_pane_never_scrolls() {
    assert_eq!(clamp_scroll(7, 4, 10), 0);
}

#[test]
fn a_pane_taller_than_its_content_does_not_underflow() {
    assert_eq!(clamp_scroll(3, 4, 10), 0);
    assert_eq!(clamp_scroll(usize::MAX, 1, 400), 0);
}

#[test]
fn clamping_never_raises_the_requested_offset() {
    assert_eq!(clamp_scroll(0, 500, 10), 0);
    assert_eq!(clamp_scroll(3, 500, 0), 3);
}

#[test]
fn lines_that_fit_are_counted_once_each() {
    assert_eq!(wrapped_lines("one\ntwo\nthree\n", 40), 3);
}

#[test]
fn a_blank_line_still_occupies_a_row() {
    assert_eq!(wrapped_lines("a\n\nb\n", 40), 3);
}

#[test]
fn an_overlong_line_occupies_the_rows_it_wraps_onto() {
    // 150 bytes is the task cap; at 30 columns that is five rows.
    let long = format!("- [ ] {}", "x".repeat(144));
    assert_eq!(wrapped_lines(&long, 30), 5);
}

#[test]
fn empty_contents_have_no_height() {
    assert_eq!(wrapped_lines("", 40), 0);
}

#[test]
fn a_zero_width_pane_does_not_divide_by_zero() {
    assert_eq!(wrapped_lines("abc\n", 0), 1);
}

#[test]
fn wrapping_counts_characters_not_bytes() {
    // Four two-byte characters fit a four-column pane in one row.
    assert_eq!(wrapped_lines("éééé", 4), 1);
    assert_eq!(wrapped_lines("ééééé", 4), 2);
}

#[test]
fn a_crlf_ending_is_not_part_of_the_line() {
    assert_eq!(wrapped_lines("abcd\r\nx", 4), 2);
    assert_eq!(wrapped_lines("abcd\r", 4), 2);
}

#[test]
fn a_row_right_aligns_its_counts() {
    let e = entry("2026-05-31_14-30.md", 2, 3);
    let text = row_text(&e, false);
    assert_eq!(
        text.chars().count(),
        ROW_WIDTH as usize,
        "the row should span the pane less its gutter: {text:?}"
    );
    assert!(text.ends_with("2 open / 3 total"), "{text:?}");
    assert!(text.starts_with("  2026-05-31  14:30"), "{text:?}");
}

#[test]
fn wider_counts_stay_flush_with_narrower_ones() {
    let narrow = row_text(&entry("2026-05-31_14-30.md", 2, 3), false);
    let wide = row_text(&entry("2026-05-30_10-00.md", 12, 137), false);
    assert_eq!(narrow.chars().count(), wide.chars().count());
}

#[test]
fn the_selected_row_carries_the_marker() {
    let e = entry("2026-05-31_14-30.md", 2, 3);
    assert!(row_text(&e, true).starts_with("\u{25b8} "));
    assert!(row_text(&e, false).starts_with("  "));
}

#[test]
fn a_row_too_wide_to_align_keeps_a_space_between_its_halves() {
    let e = entry("a-very-long-hand-written-session-name-indeed.md", 12, 137);
    let text = row_text(&e, false);
    assert!(
        text.contains(" 12 open / 137 total"),
        "halves should stay separated: {text:?}"
    );
}

#[test]
fn session_files_are_the_md_files() {
    assert!(is_session_file("2026-05-31_14-30.md"));
    assert!(!is_session_file("ignore.txt"));
    assert!(!is_session_file("md"));
}

#[test]
fn session_entries_list_newest_first_with_counts() {
    let entries = session_entries(vec![
        (
            "2026-05-30_10-00.md".to_string(),
            "## Active\n- [ ] one\n## Completed\n- [x] two\n".to_string(),
        ),
        (
            "2026-05-31_14-30.md".to_string(),
            "## Active\n- [ ] x\n- [ ] y\n".to_string(),
        ),
    ]);
    assert_eq!(entries.len(), 2);
    assert_eq!(entries[0].name, "2026-05-31_14-30.md");
    assert_eq!((entries[0].open, entries[0].total), (2, 2));
    assert_eq!(entries[1].name, "2026-05-30_10-00.md");
    assert_eq!((entries[1].open, entries[1].total), (1, 2));
    assert!(entries[0].contents.contains("- [ ] x"));
}

#[test]
fn session_entries_of_nothing_is_empty() {
    assert!(session_entries(Vec::new()).is_empty());
}

fn key(code: KeyCode) -> Event {
    Event::Key(KeyEvent::new(code))
}

fn ctrl(c: char) -> Event {
    Event::Key(KeyEvent {
        code: KeyCode::Char(c),
        control: true,
        press: true,
    })
}

fn picker() -> Picker {
    Picker::new(vec![
        entry("2026-05-31_14-30.md", 1, 2),
        entry("2026-05-30_10-00.md", 0, 1),
        entry("2026-05-29_09-00.md", 3, 3),
    ])
}

#[test]
fn picker_moves_and_opens_the_session_under_the_cursor() {
    let mut p = picker();
    assert!(!p.screen.show_all);
    assert_eq!(p.on_event(key(KeyCode::Char('j')), 0, 100, 20), PickerAction::Continue);
    assert_eq!(p.screen.cursor, 1);
    assert_eq!(
        p.on_event(key(KeyCode::Enter), 0, 100, 20),
        PickerAction::Finish(Choice::Selected("2026-05-29_09-00.md".to_string()))
    );
}

#[test]
fn picker_cancels_on_escape_and_q() {
    let mut p = picker();
    assert_eq!(
        p.on_event(key(KeyCode::Esc), 0, 100, 20),
        PickerAction::Finish(Choice::Cancelled)
    );
    assert_eq!(
        p.on_event(key(KeyCode::Char('q')), 0, 100, 20),
        PickerAction::Finish(Choice::Cancelled)
    );
}

#[test]
fn picker_delete_needs_a_yes() {
    let mut p = picker();
    p.on_event(key(KeyCode::Char('d')), 0, 100, 20);
    assert_eq!(p.screen.pending, Some(0));
    assert_eq!(p.on_event(key(KeyCode::Char('n')), 0, 100, 20), PickerAction::Continue);
    assert_eq!(p.screen.pending, None);
    p.on_event(key(KeyCode::Char('d')), 0, 100, 20);
    assert_eq!(
        p.on_event(key(KeyCode::Char('y')), 0, 100, 20),
        PickerAction::Delete("2026-05-31_14-30.md".to_string())
    );
}

#[test]
fn picker_a_reveals_finished_sessions_and_resets_the_cursor() {
    let mut p = picker();
    p.on_event(key(KeyCode::Char('j')), 0, 100, 20);
    p.on_event(key(KeyCode::Char('a')), 0, 100, 20);
    assert!(p.screen.show_all);
    assert_eq!(p.screen.cursor, 0);
    assert_eq!(p.visible_entries().len(), 3);
}

#[test]
fn picker_settle_pulls_the_cursor_back_and_drops_a_stale_prompt() {
    let mut p = picker();
    p.screen.cursor = 5;
    p.screen.pending = Some(4);
    p.settle();
    assert_eq!(p.screen.cursor, 1);
    assert_eq!(p.screen.pending, None);
}

#[test]
fn picker_preview_scrolls_by_half_pages_and_resets_on_move() {
    let mut long = String::new();
    for i in 0..40 {
        long.push_str(&format!("- [ ] task number {i}\n"));
    }
    let mut p = Picker::new(vec![
        entry_with("2026-05-31_14-30.md", 40, 40, &long),
        entry("2026-05-30_10-00.md", 1, 1),
    ]);
    // 23 rows: a 20-row page, so half a page is 10.
    p.on_event(ctrl('d'), 0, 100, 23);
    assert_eq!(p.screen.preview_scroll, 10);
    p.on_event(ctrl('d'), 0, 100, 23);
    assert_eq!(p.screen.preview_scroll, 20);
    p.on_event(ctrl('d'), 0, 100, 23);
    assert_eq!(p.screen.preview_scroll, 20, "stops with the last line on screen");
    p.on_event(ctrl('u'), 0, 100, 23);
    assert_eq!(p.screen.preview_scroll, 10);
    p.on_event(key(KeyCode::Down), 0, 100, 23);
    assert_eq!(p.screen.preview_scroll, 0);
}

#[test]
fn picker_double_click_opens_a_session() {
    let mut p = picker();
    let click = Event::Mouse(MouseEvent {
        kind: MouseKind::Down(MouseButton::Left),
        column: 5,
        row: 3,
    });
    assert_eq!(p.on_event(click, 1_000_000_000, 100, 20), PickerAction::Continue);
    assert_eq!(p.screen.cursor, 1);
    assert_eq!(
        p.on_event(click, 1_100_000_000, 100, 20),
        PickerAction::Finish(Choice::Selected("2026-05-29_09-00.md".to_string()))
    );
}

#[test]
fn picker_mouse_is_inert_while_the_prompt_is_up() {
    let mut p = picker();
    p.on_event(key(KeyCode::Char('d')), 0, 100, 20);
    let click = Event::Mouse(MouseEvent {
        kind: MouseKind::Down(MouseButton::Left),
        column: 5,
        row: 3,
    });
    assert_eq!(p.on_event(click, 0, 100, 20), PickerAction::Continue);
    assert_eq!(p.screen.cursor, 0);
    assert_eq!(p.screen.pending, Some(0));
}

#[test]
fn a_summary_line_names_the_file_and_its_counts() {
    assert_eq!(
        summary_line(&entry("2026-05-31_14-30.md", 1, 2)),
        "2026-05-31_14-30.md   1 open / 2 total"
    );
}

#[test]
fn preview_lines_are_told_apart_by_their_shape() {
    assert_eq!(line_kind("# Session 2026-05-31 14:30"), LineKind::Title);
    assert_eq!(line_kind("## Active"), LineKind::Heading);
    assert_eq!(line_kind("- [x] read the chapter"), LineKind::Done);
    assert_eq!(line_kind("- [X] shouted"), LineKind::Done);
    assert_eq!(line_kind("- [ ] wire up the parser"), LineKind::Open);
    assert_eq!(line_kind("a note by hand"), LineKind::Other);
    assert_eq!(line_kind("#no space"), LineKind::Other);
    assert_eq!(line_kind(""), LineKind::Other);
}

#[test]
fn a_delete_needs_d_then_y_with_nothing_pressed_between() {
    let mut p = picker();
    let release = Event::Key(KeyEvent {
        code: KeyCode::Char('x'),
        control: false,
        press: false,
    });
    // `y` with no prompt up deletes nothing.
    p.settle();
    assert_eq!(p.on_event(key(KeyCode::Char('y')), 0, 100, 20), PickerAction::Continue);
    // Ctrl-d scrolls the preview; it raises no prompt.
    p.settle();
    p.on_event(ctrl('d'), 0, 100, 20);
    assert_eq!(p.screen.pending, None);
    // `d` on the second row, a release and a resize in between, then `y`.
    p.settle();
    p.on_event(key(KeyCode::Char('j')), 0, 100, 20);
    p.settle();
    p.on_event(key(KeyCode::Char('d')), 0, 100, 20);
    p.settle();
    assert_eq!(p.on_event(release, 0, 100, 20), PickerAction::Continue);
    p.settle();
    assert_eq!(p.on_event(Event::Resize(100, 20), 0, 100, 20), PickerAction::Continue);
    p.settle();
    assert_eq!(
        p.on_event(key(KeyCode::Char('y')), 0, 100, 20),
        PickerAction::Delete("2026-05-29_09-00.md".to_string())
    );
    // Upper-case `Y` answers the prompt with a no.
    p.settle();
    p.on_event(key(KeyCode::Char('d')), 0, 100, 20);
    p.settle();
    assert_eq!(p.on_event(key(KeyCode::Char('Y')), 0, 100, 20), PickerAction::Continue);
    assert_eq!(p.screen.pending, None);
}

#[test]
fn pretty_name_of_a_stem_is_the_header_with_a_wider_gap() {
    for ts in [
        Timestamp { year: 2026, month: 5, day: 31, hour: 14, minute: 30 },
        Timestamp { year: 2026, month: 1, day: 2, hour: 3, minute: 4 },
        Timestamp { year: 7, month: 12, day: 9, hour: 0, minute: 0 },
    ] {
        let name = format_file_stem(ts) + ".md";
        assert_eq!(pretty_name(&name), ts.to_string().replacen(' ', "  ", 1));
    }
}
