use mtr_runner::mtr_parser::Directive;
use mtr_runner::runner::{format_rows, format_value, returns_rows, sort_block, to_hex, Row, Value};
use mtr_runner::session::{Outcome, RunError, Step, TestRun};
use mtr_runner::suite::{
    select_tests, suite_dir, suite_names, suite_verdict, summarize, TestResult,
};

#[test]
fn sort_block_preserves_header() {
    let input = "id\tname\n3\tc\n1\ta\n2\tb\n";
    let sorted = sort_block(input);
    assert_eq!(sorted, "id\tname\n1\ta\n2\tb\n3\tc\n");
}

#[test]
fn returns_rows_recognizes_select_family() {
    assert!(returns_rows("SELECT 1"));
    assert!(returns_rows("  select x from t"));
    assert!(returns_rows("WITH cte AS (SELECT 1) SELECT * FROM cte"));
    assert!(returns_rows("SHOW TABLES"));
    assert!(!returns_rows("INSERT INTO t VALUES (1)"));
    assert!(!returns_rows("CREATE TABLE t (id INT)"));
}

#[test]
fn returns_rows_skips_comment_lines_and_stops_at_parentheses() {
    assert!(returns_rows("-- leading comment\nSELECT 1"));
    assert!(returns_rows("  -- a\n  -- b\nvalues(1)"));
    assert!(returns_rows("Table t"));
    assert!(returns_rows("desc t"));
    assert!(!returns_rows("-- only a comment"));
    assert!(!returns_rows(""));
    assert!(!returns_rows("SELECTED"));
    assert!(returns_rows("EXPLAIN(SELECT 1)"));
}

#[test]
fn sort_block_of_empty_text_is_empty() {
    assert_eq!(sort_block(""), "");
    assert_eq!(sort_block("h"), "h\n");
    assert_eq!(sort_block("h\nb\na"), "h\na\nb\n");
}

#[test]
fn sort_block_orders_by_code_point_and_keeps_duplicates() {
    assert_eq!(sort_block("h\nb\nB\na\nb\n10\n9\n"), "h\n10\n9\nB\na\nb\nb\n");
}

#[test]
fn sort_block_is_idempotent_on_plain_lines() {
    let once = sort_block("h\nz\ny\nx\n");
    assert_eq!(sort_block(&once), once);
}

#[test]
fn sort_block_is_idempotent_on_crlf_input() {
    let once = sort_block("h\r\nb\r\na\r\n");
    assert_eq!(once, "h\na\nb\n");
    assert_eq!(sort_block(&once), once);
}

#[test]
fn sort_block_drops_a_trailing_carriage_return_on_the_second_pass() {
    let once = sort_block("h\nx\r");
    assert_eq!(once, "h\nx\r\n");
    assert_eq!(sort_block(&once), "h\nx\n");
}

#[test]
fn to_hex_renders_two_lower_case_digits_per_byte() {
    assert_eq!(to_hex(&[]), "");
    assert_eq!(to_hex(&[0x00, 0x0f, 0xab, 0xff]), "000fabff");
}

#[test]
fn format_value_renders_each_kind() {
    assert_eq!(format_value(&Value::Null), "NULL");
    assert_eq!(format_value(&Value::Int(-42)), "-42");
    assert_eq!(format_value(&Value::Int(i64::MIN)), "-9223372036854775808");
    assert_eq!(format_value(&Value::UInt(u64::MAX)), "18446744073709551615");
    assert_eq!(format_value(&Value::Bytes(b"abc".to_vec())), "abc");
    assert_eq!(format_value(&Value::Bytes("é".as_bytes().to_vec())), "é");
    assert_eq!(format_value(&Value::Bytes(vec![0xff, 0x01])), "0xff01");
    assert_eq!(format_value(&Value::Date(2024, 3, 5, 0, 0, 0, 0)), "2024-03-05");
    assert_eq!(format_value(&Value::Date(99, 12, 31, 23, 5, 9, 7)), "0099-12-31 23:05:09");
    assert_eq!(format_value(&Value::Time(false, 0, 1, 2, 3, 0)), "01:02:03");
    assert_eq!(format_value(&Value::Time(true, 2, 3, 0, 59, 0)), "-51:00:59");
    assert_eq!(format_value(&Value::Time(false, 5, 0, 0, 0, 0)), "120:00:00");
}

#[test]
fn format_rows_writes_header_and_tab_separated_rows() {
    assert_eq!(format_rows(&[]), "");
    let cols = vec!["id".to_string(), "name".to_string()];
    let rows = vec![
        Row { columns: cols.clone(), cells: vec!["1".to_string(), "a".to_string()] },
        Row { columns: cols, cells: vec!["2".to_string(), "NULL".to_string()] },
    ];
    assert_eq!(format_rows(&rows), "id\tname\n1\ta\n2\tNULL\n");
}

fn path(s: &str) -> Vec<String> {
    s.split('/').map(|c| c.to_string()).collect()
}

#[test]
fn select_tests_keeps_sorted_test_files() {
    let found = vec![
        path("tests/main/b.test"),
        path("tests/main/a.result"),
        path("tests/main/a.test"),
        path("tests/main/.test"),
        path("tests/main/x.test.bak"),
        path("tests/a-b/c.test"),
        path("tests/a/c.test"),
    ];
    let picked = select_tests(found, None);
    let shown: Vec<String> = picked.iter().map(|p| p.join("/")).collect();
    assert_eq!(
        shown,
        vec!["tests/a/c.test", "tests/a-b/c.test", "tests/main/a.test", "tests/main/b.test"]
    );
}

#[test]
fn select_tests_applies_the_filter_to_the_whole_path() {
    let found = vec![
        path("tests/main/join.test"),
        path("tests/json/basic.test"),
        path("tests/main/select.test"),
    ];
    let picked = select_tests(found.clone(), Some("j"));
    let shown: Vec<String> = picked.iter().map(|p| p.join("/")).collect();
    assert_eq!(shown, vec!["tests/json/basic.test", "tests/main/join.test"]);
    let picked = select_tests(found, Some("main/s"));
    assert_eq!(picked.len(), 1);
    assert_eq!(picked[0].join("/"), "tests/main/select.test");
}

fn run_script(run: &mut TestRun, d: Directive) -> Step {
    run.directive(d)
}

#[test]
fn test_run_captures_statements_echoes_and_errors() {
    let mut run = TestRun::new();
    match run_script(&mut run, Directive::Sql("SELECT 1".to_string())) {
        Step::Execute(sql) => assert_eq!(sql, "SELECT 1"),
        other => panic!("unexpected {:?}", other),
    }
    run.statement_outcome("SELECT 1", Outcome::Rendered("1\n1\n".to_string())).unwrap();
    assert!(matches!(run_script(&mut run, Directive::Echo("hi".to_string())), Step::Continue));
    assert!(matches!(run_script(&mut run, Directive::ExpectError(vec![1062, 1064])), Step::Continue));
    run_script(&mut run, Directive::Sql("INSERT".to_string()));
    run.statement_outcome("INSERT", Outcome::Failed { code: Some(1064), message: "dup".to_string() })
        .unwrap();
    assert!(matches!(
        run_script(&mut run, Directive::Unknown("--let x".to_string())),
        Step::Ignored(l) if l == "--let x"
    ));
    assert_eq!(run.output(), "SELECT 1;\n1\n1\nhi\nINSERT;\nERROR 1064: dup\n");
}

#[test]
fn test_run_sorts_only_the_next_statement() {
    let mut run = TestRun::new();
    run_script(&mut run, Directive::SortedResult);
    run_script(&mut run, Directive::Sql("SELECT x".to_string()));
    run.statement_outcome("SELECT x", Outcome::Rendered("x\n3\n1\n2\n".to_string())).unwrap();
    run_script(&mut run, Directive::Sql("SELECT y".to_string()));
    run.statement_outcome("SELECT y", Outcome::Rendered("y\n3\n1\n".to_string())).unwrap();
    assert_eq!(run.output(), "SELECT x;\nx\n1\n2\n3\nSELECT y;\ny\n3\n1\n");
}

#[test]
fn test_run_refuses_unexpected_outcomes() {
    let mut run = TestRun::new();
    run_script(&mut run, Directive::ExpectError(vec![1050]));
    run_script(&mut run, Directive::Sql("CREATE".to_string()));
    match run.statement_outcome("CREATE", Outcome::Rendered(String::new())) {
        Err(RunError::UnexpectedSuccess { expected, sql }) => {
            assert_eq!(expected, vec![1050]);
            assert_eq!(sql, "CREATE");
        }
        other => panic!("unexpected {:?}", other),
    }
    match run.statement_outcome("CREATE", Outcome::Failed { code: Some(1), message: "m".to_string() }) {
        Err(RunError::WrongError { code, .. }) => assert_eq!(code, 1),
        other => panic!("unexpected {:?}", other),
    }
    match run.statement_outcome("CREATE", Outcome::Failed { code: None, message: "io".to_string() }) {
        Err(RunError::NonServerError { message, .. }) => assert_eq!(message, "io"),
        other => panic!("unexpected {:?}", other),
    }
    let mut plain = TestRun::new();
    plain.directive(Directive::Sql("DROP".to_string()));
    match plain.statement_outcome("DROP", Outcome::Failed { code: Some(1051), message: "no".to_string() }) {
        Err(RunError::UnexpectedError { sql, code, message }) => {
            assert_eq!(sql, "DROP");
            assert_eq!(code, Some(1051));
            assert_eq!(message, "no");
        }
        other => panic!("unexpected {:?}", other),
    }
    assert_eq!(plain.output(), "DROP;\n");
}

#[test]
fn suite_summary_counts_each_result_once() {
    let results = vec![
        TestResult::Passed,
        TestResult::Skipped,
        TestResult::Failed,
        TestResult::Passed,
    ];
    let s = summarize(&results);
    assert_eq!((s.passed, s.failed, s.skipped), (2, 1, 1));
    assert_eq!(suite_verdict(&s), Err(1));
    let ok = summarize(&vec![TestResult::Passed, TestResult::Skipped]);
    assert_eq!(suite_verdict(&ok), Ok(()));
    assert_eq!(suite_verdict(&summarize(&vec![])), Ok(()));
}

#[test]
fn suite_names_are_trimmed_and_blank_ones_dropped() {
    assert_eq!(suite_names("main, binlog ,,json"), vec!["main", "binlog", "json"]);
    assert!(suite_names("").is_empty());
    assert!(suite_names(" , ").is_empty());
    assert_eq!(suite_names("all"), vec!["all"]);
}

#[test]
fn returns_rows_ignores_ascii_case() {
    for sql in ["SELECT 1", "Show tables", "-- c\nwith x as (select 1) select 1", "insert into t values (1)"] {
        assert_eq!(returns_rows(&sql.to_ascii_lowercase()), returns_rows(sql));
        assert_eq!(returns_rows(&sql.to_ascii_uppercase()), returns_rows(sql));
    }
}

#[test]
fn unknown_directive_keeps_pending_expectations() {
    let mut run = TestRun::new();
    run.directive(Directive::SortedResult);
    run.directive(Directive::Unknown("--disable_warnings".to_string()));
    run.directive(Directive::Sql("SELECT x".to_string()));
    run.statement_outcome("SELECT x", Outcome::Rendered("x\n2\n1\n".to_string())).unwrap();
    assert_eq!(run.output(), "SELECT x;\nx\n1\n2\n");
}

#[test]
fn empty_filter_selects_every_test_and_filtering_keeps_order() {
    let found = vec![
        path("tests/main/b.test"),
        path("tests/json/a.test"),
        path("tests/main/a.test"),
        path("tests/main/a.result"),
    ];
    assert_eq!(select_tests(found.clone(), Some("")), select_tests(found.clone(), None));
    let all = select_tests(found.clone(), None);
    let only_main: Vec<Vec<String>> =
        all.into_iter().filter(|p| p.join("/").contains("main")).collect();
    assert_eq!(select_tests(found, Some("main")), only_main);
}

#[test]
fn run_error_messages_have_the_original_wording() {
    let e = RunError::UnexpectedSuccess { expected: vec![1064, 1146], sql: "SELECT 1".to_string() };
    assert_eq!(e.message(), "expected error in [1064, 1146] for `SELECT 1`, but it succeeded");
    let e = RunError::UnexpectedError {
        sql: "DROP TABLE t".to_string(),
        code: Some(1051),
        message: "Unknown table".to_string(),
    };
    assert_eq!(e.message(), "unexpected error from `DROP TABLE t`: code=Some(1051) msg=Unknown table");
    let e = RunError::UnexpectedError { sql: "X".to_string(), code: None, message: "io".to_string() };
    assert_eq!(e.message(), "unexpected error from `X`: code=None msg=io");
    let e = RunError::NonServerError { expected: vec![7], sql: "Y".to_string(), message: "gone".to_string() };
    assert_eq!(e.message(), "expected error in [7] for `Y`, got non-server error: gone");
    let e = RunError::WrongError {
        expected: vec![],
        sql: "Z".to_string(),
        code: 1,
        message: "m".to_string(),
    };
    assert_eq!(e.message(), "expected error in [] for `Z`, got 1: m");
}

#[test]
fn suite_dir_names_the_directory_to_search() {
    assert_eq!(suite_dir("all"), vec!["tests".to_string()]);
    assert_eq!(suite_dir("main"), vec!["tests".to_string(), "main".to_string()]);
    assert_eq!(suite_dir("All"), vec!["tests".to_string(), "All".to_string()]);
}
