use caleb::markdown::{count_tasks, parse, serialize, ParseError};
use caleb::model::{Task, Timestamp, MAX_TASK_BYTES};

fn task(text: &str, done: bool) -> Task {
    Task {
        text: text.to_string(),
        done,
    }
}

#[test]
fn count_tasks_counts_open_and_total() {
    let src = "# Session 2026-05-31 14:30\n## Active\n- [ ] a\n- [ ] b\n## Completed\n- [x] c\n- [x] d\n- [x] e\n";
    let c = count_tasks(src);
    assert_eq!(c.open, 2);
    assert_eq!(c.total, 5);
}

#[test]
fn count_tasks_ignores_prose() {
    let c = count_tasks("just some text\n- not a task\n");
    assert_eq!(c.open, 0);
    assert_eq!(c.total, 0);
}

#[test]
fn count_tasks_tolerates_lines_that_parse_would_reject() {
    // The picker must still list a session whose file has a hand-edited
    // over-long task, even though `parse` refuses to open it.
    let src = format!("- [ ] {}\n- [x] ok\n", "x".repeat(MAX_TASK_BYTES + 1));
    assert!(parse(&src).is_err());
    let c = count_tasks(&src);
    assert_eq!(c.open, 1);
    assert_eq!(c.total, 2);
}

#[test]
fn count_tasks_does_not_count_an_upper_case_checkbox() {
    // Only the two shapes caleb writes are tasks.
    let c = count_tasks("- [X] shouted\n- [ ] quiet\n");
    assert_eq!(c.open, 1);
    assert_eq!(c.total, 1);
}

#[test]
fn parse_empty_yields_nothing() {
    let p = parse("").unwrap();
    assert_eq!(p.timestamp, None);
    assert!(p.active.is_empty());
    assert!(p.completed.is_empty());
}

#[test]
fn parse_header_sets_timestamp() {
    let p = parse("# Session 2026-05-31 14:30\n").unwrap();
    assert_eq!(
        p.timestamp,
        Some(Timestamp {
            year: 2026,
            month: 5,
            day: 31,
            hour: 14,
            minute: 30
        })
    );
}

#[test]
fn parse_malformed_header_is_ignored() {
    assert_eq!(parse("# Session not-a-date\n").unwrap().timestamp, None);
}

#[test]
fn parse_out_of_range_header_is_ignored() {
    assert_eq!(
        parse("# Session 2026-13-99 25:61\n").unwrap().timestamp,
        None
    );
}

#[test]
fn parse_classifies_tasks_by_section() {
    let src = "## Active\n- [ ] alpha\n- [ ] beta\n## Completed\n- [x] gamma\n";
    let p = parse(src).unwrap();
    assert_eq!(p.active, vec![task("alpha", false), task("beta", false)]);
    assert_eq!(p.completed, vec![task("gamma", true)]);
}

#[test]
fn parse_orphan_tasks_default_to_active() {
    let p = parse("- [ ] orphan\n").unwrap();
    assert_eq!(p.active, vec![task("orphan", false)]);
}

#[test]
fn parse_ignores_unknown_lines() {
    let src = "## Active\nsome prose\n- [ ] real task\n> quote\n- not a task\n";
    let p = parse(src).unwrap();
    assert_eq!(p.active, vec![task("real task", false)]);
}

#[test]
fn parse_rejects_oversize_task() {
    let src = format!("- [ ] {}\n", "x".repeat(MAX_TASK_BYTES + 1));
    assert_eq!(parse(&src), Err(ParseError::LineTooLong));
}

#[test]
fn parse_accepts_a_task_exactly_at_the_cap() {
    let src = format!("- [ ] {}\n", "x".repeat(MAX_TASK_BYTES));
    let p = parse(&src).unwrap();
    assert_eq!(p.active[0].text.len(), MAX_TASK_BYTES);
}

#[test]
fn parse_tolerates_crlf() {
    let src = "# Session 2026-05-31 14:30\r\n## Active\r\n- [ ] windows-style\r\n";
    let p = parse(src).unwrap();
    assert_eq!(p.active, vec![task("windows-style", false)]);
    assert_eq!(p.timestamp.unwrap().minute, 30);
}

#[test]
fn serialize_canonical_shape() {
    let out = serialize(
        Some(Timestamp {
            year: 2026,
            month: 5,
            day: 31,
            hour: 14,
            minute: 30,
        }),
        &[task("first", false), task("second", false)],
        &[task("third", true)],
    );
    assert_eq!(
        out,
        "# Session 2026-05-31 14:30\n\n## Active\n\n- [ ] first\n- [ ] second\n\n## Completed\n\n- [x] third\n"
    );
}

#[test]
fn serialize_omits_date_when_none() {
    assert_eq!(
        serialize(None, &[], &[]),
        "# Session\n\n## Active\n\n\n## Completed\n\n"
    );
}

#[test]
fn round_trip_is_byte_stable() {
    let original = "# Session 2026-05-31 14:30\n\n## Active\n\n- [ ] alpha\n- [ ] beta\n\n## Completed\n\n- [x] gamma\n";
    let first = parse(original).unwrap();
    let out = serialize(first.timestamp, &first.active, &first.completed);
    assert_eq!(out, original);
    assert_eq!(parse(&out).unwrap(), first);
}

#[test]
fn serialize_then_parse_gives_the_tasks_back() {
    // The round-trip law on concrete values, including a multi-byte text
    // and a task whose flag disagrees with its pane: the pane decides the
    // checkbox written, so it comes back open.
    let ts = Timestamp {
        year: 999,
        month: 12,
        day: 1,
        hour: 0,
        minute: 59,
    };
    let active = vec![task("naïve café", false), task("odd one", true)];
    let completed = vec![task("done", true)];
    let out = serialize(Some(ts), &active, &completed);
    let p = parse(&out).unwrap();
    assert_eq!(p.timestamp, Some(ts));
    assert_eq!(p.active, vec![task("naïve café", false), task("odd one", false)]);
    assert_eq!(p.completed, completed);
}

#[test]
fn counts_agree_with_a_parse_of_a_canonical_file() {
    let out = serialize(None, &[task("a", false), task("b", false)], &[task("c", true)]);
    let p = parse(&out).unwrap();
    let c = count_tasks(&out);
    assert_eq!(c.total as usize, p.active.len() + p.completed.len());
    assert_eq!(c.open, 2);
}

#[test]
fn crlf_endings_parse_exactly_as_lf_endings() {
    let long = format!("- [ ] {}\n", "x".repeat(MAX_TASK_BYTES + 1));
    let cases = [
        "# Session 2026-05-31 14:30\n## Active\n- [ ] a\n- [x] b\n## Completed\n- [x] c\n",
        "\n\nprose\n- [ ] first\n",
        "- [ ] no trailing newline",
        "",
        long.as_str(),
    ];
    for lf in cases {
        let crlf = lf.replace('\n', "\r\n");
        assert_eq!(parse(&crlf), parse(lf));
    }
    assert_eq!(parse(&long.replace('\n', "\r\n")), Err(ParseError::LineTooLong));
}
