use caleb::model::{truncate_on_char_boundary, Pane, Timestamp};

#[test]
fn model_pane_other_flips() {
    assert_eq!(Pane::Active.other(), Pane::Completed);
    assert_eq!(Pane::Completed.other(), Pane::Active);
}

#[test]
fn timestamp_displays_in_header_format() {
    let ts = Timestamp {
        year: 2026,
        month: 5,
        day: 31,
        hour: 14,
        minute: 30,
    };
    assert_eq!(ts.to_string(), "2026-05-31 14:30");
}

#[test]
fn timestamp_display_zero_pads() {
    let ts = Timestamp {
        year: 999,
        month: 1,
        day: 2,
        hour: 3,
        minute: 4,
    };
    assert_eq!(ts.to_string(), "0999-01-02 03:04");
}

#[test]
fn truncate_leaves_short_strings_alone() {
    assert_eq!(truncate_on_char_boundary("abc", 10), "abc");
    assert_eq!(truncate_on_char_boundary("abc", 3), "abc");
}

#[test]
fn truncate_never_splits_a_multibyte_char() {
    // 'é' is 2 bytes, so a cap of 2 must drop it entirely rather than
    // slicing it in half.
    assert_eq!(truncate_on_char_boundary("aé", 2), "a");
    assert_eq!(truncate_on_char_boundary("aé", 3), "aé");
    assert_eq!(truncate_on_char_boundary("é", 1), "");
}

#[test]
fn truncate_cuts_ascii_exactly_at_the_cap() {
    assert_eq!(truncate_on_char_boundary("abcdef", 4), "abcd");
    assert_eq!(truncate_on_char_boundary("abc", 0), "");
}

#[test]
fn truncate_backs_off_a_three_byte_char() {
    // '€' is 3 bytes: caps of 2, 3 and 4 all land inside it.
    assert_eq!(truncate_on_char_boundary("a€", 2), "a");
    assert_eq!(truncate_on_char_boundary("a€", 3), "a");
    assert_eq!(truncate_on_char_boundary("a€", 4), "a€");
}
