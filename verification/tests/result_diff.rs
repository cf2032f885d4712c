use mtr_runner::result_diff::{compare, report_entry};

#[test]
fn equal_strings_compare_ok() {
    assert!(compare("a\nb\n", "a\nb\n").is_ok());
}

#[test]
fn divergent_strings_report_first_line() {
    let err = compare("a\nx\nc\n", "a\nb\nc\n").unwrap_err().to_string();
    assert!(
        err.contains("line 2"),
        "report should point at line 2, got: {err}"
    );
}

#[test]
fn shorter_actual_is_caught() {
    let err = compare("a\n", "a\nb\n").unwrap_err().to_string();
    assert!(err.contains("actual ended"), "got: {err}");
}

#[test]
fn report_has_the_exact_format() {
    let err = compare("a\nx\nc\n", "a\nb\nc\n").unwrap_err();
    assert_eq!(err, "result mismatch\nline 2: expected \"b\", got \"x\"\n");
}

#[test]
fn extra_actual_line_is_reported() {
    let err = compare("a\nb\n", "a\n").unwrap_err();
    assert_eq!(err, "result mismatch\nline 2: extra actual line \"b\" (expected ended)\n");
}

#[test]
fn missing_actual_line_is_reported() {
    let err = compare("", "a\n").unwrap_err();
    assert_eq!(err, "result mismatch\nline 1: expected \"a\", but actual ended\n");
}

#[test]
fn quotes_and_tabs_are_escaped_in_the_report() {
    let err = compare("a\t\"b\"\n", "a\n").unwrap_err();
    assert_eq!(
        err,
        "result mismatch\nline 1: expected \"a\", got \"a\\t\\\"b\\\"\"\n"
    );
}

#[test]
fn long_report_is_truncated() {
    let actual: String = (0..20).map(|i| format!("x{i}\n")).collect();
    let expected: String = (0..20).map(|i| format!("y{i}\n")).collect();
    let err = compare(&actual, &expected).unwrap_err();
    let lines: Vec<&str> = err.lines().collect();
    assert_eq!(lines.len(), 14);
    assert_eq!(lines[0], "result mismatch");
    assert_eq!(lines[1], "line 1: expected \"y0\", got \"x0\"");
    assert_eq!(lines[12], "line 12: expected \"y11\", got \"x11\"");
    assert_eq!(lines[13], "(more lines truncated)");
}

#[test]
fn difference_only_in_line_endings_gives_a_bare_header() {
    let err = compare("a\r\n", "a\n").unwrap_err();
    assert_eq!(err, "result mismatch\n");
}

#[test]
fn report_never_runs_past_fourteen_lines() {
    for n in [1usize, 11, 12, 13, 40] {
        let actual: String = (0..n).map(|i| format!("a\n{i}\n")).collect();
        let expected: String = (0..n).map(|i| format!("a\n{i}x\n")).collect();
        let err = compare(&actual, &expected).unwrap_err();
        assert!(err.lines().count() <= 14);
        assert_eq!(err.lines().count(), 1 + n.min(12) + usize::from(n >= 12));
    }
}

#[test]
fn exactly_twelve_differences_still_get_the_truncation_note() {
    let actual: String = (0..12).map(|i| format!("x{i}\n")).collect();
    let expected: String = (0..12).map(|i| format!("y{i}\n")).collect();
    let err = compare(&actual, &expected).unwrap_err();
    let lines: Vec<&str> = err.lines().collect();
    assert_eq!(lines.len(), 14);
    assert_eq!(lines[13], "(more lines truncated)");
}

#[test]
fn report_entry_renders_each_case() {
    assert_eq!(
        report_entry(7, Some("\"x\""), Some("\"y\"")),
        "line 7: expected \"y\", got \"x\"\n"
    );
    assert_eq!(report_entry(1, None, Some("\"y\"")), "line 1: expected \"y\", but actual ended\n");
    assert_eq!(
        report_entry(12, Some("\"x\""), None),
        "line 12: extra actual line \"x\" (expected ended)\n"
    );
    assert_eq!(report_entry(3, None, None), "");
}

#[test]
fn report_quotes_the_lines_it_names() {
    let err = compare("a\\b\n", "a\n").unwrap_err();
    assert_eq!(err, "result mismatch\nline 1: expected \"a\", got \"a\\\\b\"\n");
}
