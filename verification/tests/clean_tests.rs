use caleb::clean::{cleanable, plural};
use caleb::picker::Entry;
use caleb::clean::confirms;

fn entry(name: &str, open: u32, total: u32) -> Entry {
    Entry {
        name: name.to_string(),
        open,
        total,
        contents: String::new(),
    }
}

#[test]
fn keeps_sessions_with_open_tasks() {
    let entries = vec![entry("a.md", 1, 3)];
    assert!(cleanable(&entries).is_empty());
}

#[test]
fn selects_fully_completed_sessions() {
    let entries = vec![entry("a.md", 0, 3)];
    let got = cleanable(&entries);
    assert_eq!(got.len(), 1);
    assert_eq!(got[0].name, "a.md");
}

#[test]
fn selects_sessions_with_no_tasks_at_all() {
    let entries = vec![entry("empty.md", 0, 0)];
    assert_eq!(cleanable(&entries).len(), 1);
}

#[test]
fn preserves_scan_order() {
    let entries = vec![
        entry("c.md", 0, 1),
        entry("b.md", 2, 2),
        entry("a.md", 0, 0),
    ];
    let names: Vec<_> = cleanable(&entries).iter().map(|e| &e.name).collect();
    assert_eq!(names, ["c.md", "a.md"]);
}

#[test]
fn plural_says_session_once() {
    assert_eq!(plural(1), "1 session");
    assert_eq!(plural(2), "2 sessions");
    assert_eq!(plural(0), "0 sessions");
    assert_eq!(plural(137), "137 sessions");
}

#[test]
fn only_a_bare_yes_confirms() {
    for yes in ["y\n", "yes\n", "Y", "YES", "  yEs \t\n", "\u{3000}y\u{a0}"] {
        assert!(confirms(yes), "{yes:?} is a yes");
    }
    for no in ["", "\n", "n\n", "no", "yep\n", "ye s", "yess", "y y"] {
        assert!(!confirms(no), "{no:?} is a no");
    }
}
