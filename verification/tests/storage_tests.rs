use caleb::model::Timestamp;
use caleb::storage::{
    after_probe, candidate_taken, format_file_stem, resolve_storage_dir,
    timestamp_from_unix_seconds, timestamp_now, unique_filename, Probe, ResolveError,
};
use std::path::PathBuf;

#[test]
fn epoch_maps_to_1970() {
    let ts = timestamp_from_unix_seconds(0);
    assert_eq!(
        ts,
        Timestamp {
            year: 1970,
            month: 1,
            day: 1,
            hour: 0,
            minute: 0
        }
    );
}

#[test]
fn leap_day_2024() {
    // 1709209496 == 2024-02-29 12:24:56 UTC
    let ts = timestamp_from_unix_seconds(1709209496);
    assert_eq!(
        ts,
        Timestamp {
            year: 2024,
            month: 2,
            day: 29,
            hour: 12,
            minute: 24
        }
    );
}

#[test]
fn negative_seconds_clamp_to_epoch() {
    let ts = timestamp_from_unix_seconds(-100);
    assert_eq!(ts.year, 1970);
    assert_eq!(ts.month, 1);
}

#[test]
fn file_stem_is_zero_padded() {
    let ts = Timestamp {
        year: 2026,
        month: 5,
        day: 31,
        hour: 14,
        minute: 30,
    };
    assert_eq!(format_file_stem(ts), "2026-05-31_14-30");
    let ts = Timestamp {
        year: 2026,
        month: 1,
        day: 2,
        hour: 3,
        minute: 4,
    };
    assert_eq!(format_file_stem(ts), "2026-01-02_03-04");
}

#[test]
fn xdg_wins_when_set() {
    let p = resolve_storage_dir(Some("/custom/data"), None).unwrap();
    assert_eq!(p, PathBuf::from("/custom/data/caleb"));
}

#[test]
fn falls_back_to_home_local_share() {
    let p = resolve_storage_dir(None, Some("/home/test")).unwrap();
    assert_eq!(p, PathBuf::from("/home/test/.local/share/caleb"));
}

#[test]
fn empty_xdg_is_treated_as_unset() {
    let p = resolve_storage_dir(Some(""), Some("/home/test")).unwrap();
    assert_eq!(p, PathBuf::from("/home/test/.local/share/caleb"));
}

#[test]
fn errors_when_nothing_is_set() {
    assert_eq!(
        resolve_storage_dir(None, None),
        Err(ResolveError::NoStorageDir)
    );
}

#[test]
fn empty_home_counts_as_unset_too() {
    assert_eq!(
        resolve_storage_dir(Some(""), Some("")),
        Err(ResolveError::NoStorageDir)
    );
}

#[test]
fn unique_filename_uses_base_name_in_empty_dir() {
    let dir = tempfile::tempdir().unwrap();
    let got = unique_filename(dir.path(), "2026-05-31_14-30", ".md").unwrap();
    assert_eq!(got, "2026-05-31_14-30.md");
}

#[test]
fn unique_filename_steps_past_a_name_that_is_taken() {
    // The directory itself is taken as a name inside its parent.
    let dir = tempfile::tempdir().unwrap();
    let parent = dir.path().parent().unwrap();
    let stem = dir.path().file_name().unwrap().to_str().unwrap();
    assert_eq!(
        unique_filename(parent, stem, "").unwrap(),
        format!("{stem}-2")
    );
}

#[test]
fn timestamp_now_is_plausible() {
    let ts = timestamp_now().expect("system clock within range");
    assert!(ts.year >= 2026);
    assert!((1..=12).contains(&ts.month));
    assert!((1..=31).contains(&ts.day));
    assert!(ts.hour <= 23);
    assert!(ts.minute <= 59);
}

#[test]
fn after_probe_takes_a_free_name_and_steps_past_a_taken_one() {
    assert_eq!(after_probe(1, false), Probe::Take);
    assert_eq!(after_probe(7, false), Probe::Take);
    assert_eq!(after_probe(1, true), Probe::Next(2));
    assert_eq!(after_probe(41, true), Probe::Next(42));
    assert_eq!(after_probe(u32::MAX, true), Probe::Exhausted);
    assert_eq!(after_probe(u32::MAX, false), Probe::Take);
}

#[test]
fn candidate_taken_probes_the_numbered_name() {
    let dir = tempfile::tempdir().unwrap();
    let parent = dir.path().parent().unwrap();
    let stem = dir.path().file_name().unwrap().to_str().unwrap();
    assert!(candidate_taken(parent, stem, "", 1));
    assert!(!candidate_taken(parent, stem, "", 2));
    assert!(!candidate_taken(dir.path(), "anything", ".md", 1));
}
