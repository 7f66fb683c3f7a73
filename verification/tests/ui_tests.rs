use caleb::input::Rect;
use caleb::ui::colors_wanted;
use caleb::model::Timestamp;
use caleb::ui::{header_counts, header_stamp};
use caleb::ui::{help_rect, input_tail, split_panes, too_small, visible_tasks, ClickTracker, DOUBLE_CLICK_NANOS};

const MS: u64 = 1_000_000;

#[test]
fn click_tracker_pairs_only_same_target_within_the_window() {
    let t0: u64 = 5_000 * MS;
    let mut tracker = ClickTracker::default();

    assert!(!tracker.click(1usize, t0), "first click is never a double");
    assert!(tracker.click(1usize, t0 + 100 * MS));

    // Same target, but too slow.
    assert!(!tracker.click(2usize, t0));
    assert!(!tracker.click(2usize, t0 + DOUBLE_CLICK_NANOS + MS));

    // Fast enough, but a different target.
    assert!(!tracker.click(3usize, t0));
    assert!(!tracker.click(4usize, t0 + 10 * MS));
}

#[test]
fn click_tracker_resets_after_a_double_so_triples_do_not_chain() {
    let t0: u64 = 5_000 * MS;
    let mut tracker = ClickTracker::default();
    assert!(!tracker.click(1usize, t0));
    assert!(tracker.click(1usize, t0 + 10 * MS));
    // Third rapid click starts a new pair rather than firing again.
    assert!(!tracker.click(1usize, t0 + 20 * MS));
}

#[test]
fn click_tracker_reset_breaks_the_pending_pair() {
    let t0: u64 = 5_000 * MS;
    let mut tracker = ClickTracker::default();
    assert!(!tracker.click(1usize, t0));
    tracker.reset();
    assert!(!tracker.click(1usize, t0 + 10 * MS));
}

#[test]
fn click_tracker_accepts_exactly_the_window() {
    let t0: u64 = 5_000 * MS;
    let mut tracker = ClickTracker::default();
    assert!(!tracker.click(7usize, t0));
    assert!(tracker.click(7usize, t0 + DOUBLE_CLICK_NANOS));
}

#[test]
fn visible_tasks_halves_the_inner_height() {
    assert_eq!(visible_tasks(8), 3);
    assert_eq!(visible_tasks(2), 0);
}

#[test]
fn visible_tasks_of_a_sliver_is_zero() {
    assert_eq!(visible_tasks(0), 0);
    assert_eq!(visible_tasks(1), 0);
    assert_eq!(visible_tasks(9), 3);
}

#[test]
fn small_terminals_are_too_small() {
    assert!(too_small(Rect::new(0, 0, 40, 4)));
    assert!(too_small(Rect::new(0, 0, 29, 40)));
    assert!(!too_small(Rect::new(0, 0, 30, 10)));
}

#[test]
fn odd_width_gives_the_extra_column_to_the_right_pane() {
    let r = split_panes(Rect::new(0, 3, 41, 8));
    assert_eq!(r.active, Rect::new(0, 3, 20, 8));
    assert_eq!(r.completed, Rect::new(20, 3, 21, 8));
}

#[test]
fn the_help_box_is_centred_or_skipped() {
    assert_eq!(help_rect(Rect::new(0, 0, 80, 40)), Some(Rect::new(12, 5, 56, 30)));
    assert_eq!(help_rect(Rect::new(0, 0, 40, 10)), None);
}

#[test]
fn input_tail_keeps_what_fits_without_splitting_characters() {
    assert_eq!(input_tail("hello", 10), "hello");
    assert_eq!(input_tail("hello", 3), "llo");
    // 'é' is 2 bytes: the cut at byte 1 lands inside it, so it moves on.
    assert_eq!(input_tail("éab", 3), "ab");
    assert_eq!(input_tail("aéb", 3), "éb");
}

#[test]
fn no_color_turns_colour_off_only_when_set_and_non_empty() {
    assert!(colors_wanted(None));
    assert!(colors_wanted(Some("")));
    assert!(!colors_wanted(Some("1")));
}

#[test]
fn header_parts_spell_the_timestamp_and_counts() {
    let ts = Timestamp {
        year: 2026,
        month: 5,
        day: 31,
        hour: 14,
        minute: 30,
    };
    assert_eq!(header_stamp(ts), "· 2026-05-31 14:30 ");
    assert_eq!(header_counts(0, 0), "· 0 active / 0 done");
    assert_eq!(header_counts(12, 3), "· 12 active / 3 done");
}

#[test]
fn help_overlay_is_skipped_when_it_cannot_fit() {
    assert_eq!(help_rect(Rect::new(0, 0, 40, 10)), None);
}

#[test]
fn input_overflow_scrolls_without_splitting_multibyte_chars() {
    // A 40-column field leaves 34 columns for text once the borders, the
    // prompt and the caret are taken; the cut sweeps through the 'é'.
    let room = 40 - 2 - 4;
    for tail in 30..40 {
        let text = format!("{}é{}", "x".repeat(20), "y".repeat(tail));
        let shown = input_tail(&text, room);
        assert!(shown.len() <= room, "tail={tail}: {shown:?} leaves no room for the caret");
        assert!(text.ends_with(shown), "tail={tail}: {shown:?} is not the end of the text");
        assert!(shown.len() >= room - 1, "tail={tail}: {shown:?} drops more than a split character");
    }
}

#[test]
fn header_shows_name_timestamp_and_counts() {
    let ts = Timestamp {
        year: 2026,
        month: 5,
        day: 31,
        hour: 14,
        minute: 30,
    };
    assert_eq!(
        format!(" caleb {}{}", header_stamp(ts), header_counts(0, 0)),
        " caleb · 2026-05-31 14:30 · 0 active / 0 done"
    );
}
