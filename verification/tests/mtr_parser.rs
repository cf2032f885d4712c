use mtr_runner::mtr_parser::{
    parse, parse_directive, parse_is_defined, unterminated_message, CodeErrorKind, Directive,
    ParseError,
};

#[test]
fn parses_basic_sql_and_directives() {
    let src = "\
# leading comment
SELECT 1;

--sorted_result
SELECT 2;

--error 1062
INSERT INTO t VALUES (1);
";
    let dirs = parse(src).unwrap();
    assert_eq!(dirs.len(), 5);
    assert!(matches!(&dirs[0], Directive::Sql(s) if s == "SELECT 1"));
    assert!(matches!(dirs[1], Directive::SortedResult));
    assert!(matches!(&dirs[2], Directive::Sql(s) if s == "SELECT 2"));
    assert!(matches!(&dirs[3], Directive::ExpectError(c) if c == &[1062]));
    assert!(matches!(&dirs[4], Directive::Sql(s) if s == "INSERT INTO t VALUES (1)"));
}

#[test]
fn handles_multi_line_sql() {
    let src = "\
SELECT
  1,
  2;
";
    let dirs = parse(src).unwrap();
    assert_eq!(dirs.len(), 1);
    let Directive::Sql(s) = &dirs[0] else {
        panic!("expected Sql, got {:?}", dirs[0])
    };
    assert!(s.contains("SELECT"));
    assert!(s.contains("1,"));
    assert!(s.contains("2"));
}

#[test]
fn rejects_unterminated_sql() {
    let src = "SELECT 1\nSELECT 2";
    assert!(parse(src).is_err());
}

#[test]
fn multi_line_sql_is_joined_with_newlines() {
    let dirs = parse("SELECT\n  1,\n  2;\n").unwrap();
    assert!(matches!(&dirs[0], Directive::Sql(s) if s == "SELECT\n  1,\n  2"));
}

#[test]
fn unterminated_sql_carries_the_pending_text() {
    match parse("SELECT 1\nSELECT 2") {
        Err(ParseError::UnterminatedSql(buf)) => assert_eq!(buf, "SELECT 1\nSELECT 2"),
        other => panic!("unexpected {:?}", other),
    }
}

#[test]
fn trailing_semicolons_and_blanks_are_stripped() {
    let dirs = parse("SELECT 1 ;;  \n").unwrap();
    assert_eq!(dirs.len(), 1);
    assert!(matches!(&dirs[0], Directive::Sql(s) if s == "SELECT 1"));
}

#[test]
fn lone_semicolon_yields_no_statement() {
    let dirs = parse(";\n").unwrap();
    assert!(dirs.is_empty());
}

#[test]
fn crlf_line_endings_are_accepted() {
    let dirs = parse("SELECT 1;\r\n--echo hi\r\n").unwrap();
    assert_eq!(dirs.len(), 2);
    assert!(matches!(&dirs[0], Directive::Sql(s) if s == "SELECT 1"));
    assert!(matches!(&dirs[1], Directive::Echo(s) if s == "hi"));
}

#[test]
fn comment_lines_inside_a_statement_are_sql() {
    let dirs = parse("SELECT\n# not a comment here\n1;\n").unwrap();
    assert!(matches!(&dirs[0], Directive::Sql(s) if s == "SELECT\n# not a comment here\n1"));
}

#[test]
fn error_directive_takes_a_code_list() {
    let dirs = parse("--error 1062, 1064 ,,\nSELECT 1;\n").unwrap();
    assert!(matches!(&dirs[0], Directive::ExpectError(c) if c == &[1062, 1064]));
}

#[test]
fn error_codes_accept_a_plus_sign() {
    assert!(matches!(parse_directive("error +5", 1), Ok(Directive::ExpectError(c)) if c == vec![5]));
}

#[test]
fn error_directive_without_codes_is_refused() {
    assert!(matches!(parse("\n--error\n"), Err(ParseError::MissingErrorCode { line: 2 })));
    assert!(matches!(parse("--error ,\n"), Err(ParseError::MissingErrorCode { line: 1 })));
}

#[test]
fn error_directive_with_bad_codes_is_refused() {
    match parse("--error 12x\n") {
        Err(ParseError::BadErrorCode { line, args, kind }) => {
            assert_eq!(line, 1);
            assert_eq!(args, "12x");
            assert_eq!(kind, CodeErrorKind::InvalidDigit);
        }
        other => panic!("unexpected {:?}", other),
    }
    assert!(matches!(
        parse_directive("error 4294967296", 3),
        Err(ParseError::BadErrorCode { line: 3, kind: CodeErrorKind::PosOverflow, .. })
    ));
    assert!(matches!(parse_directive("error 4294967295", 3), Ok(Directive::ExpectError(c)) if c == vec![4294967295]));
    assert!(matches!(
        parse_directive("error -1", 3),
        Err(ParseError::BadErrorCode { kind: CodeErrorKind::InvalidDigit, .. })
    ));
    assert!(matches!(
        parse_directive("error +", 3),
        Err(ParseError::BadErrorCode { kind: CodeErrorKind::InvalidDigit, .. })
    ));
}

#[test]
fn echo_keeps_its_text() {
    let dirs = parse("--echo   hello  world  \n--echo\n").unwrap();
    assert!(matches!(&dirs[0], Directive::Echo(s) if s == "hello  world"));
    assert!(matches!(&dirs[1], Directive::Echo(s) if s.is_empty()));
}

#[test]
fn unknown_directives_keep_their_line() {
    let dirs = parse("--  let $x = 1\n--disable_warnings\n").unwrap();
    assert!(matches!(&dirs[0], Directive::Unknown(s) if s == "--let $x = 1"));
    assert!(matches!(&dirs[1], Directive::Unknown(s) if s == "--disable_warnings"));
}

#[test]
fn empty_script_has_no_directives() {
    assert!(parse("").unwrap().is_empty());
    assert!(parse("# only\n\n   \n# comments\n").unwrap().is_empty());
}

#[test]
fn final_newline_does_not_change_the_result() {
    let a = parse("SELECT 1;\n--echo x").unwrap();
    let b = parse("SELECT 1;\n--echo x\n").unwrap();
    assert_eq!(a.len(), b.len());
    assert!(matches!(&a[1], Directive::Echo(s) if s == "x"));
    assert!(matches!(&b[1], Directive::Echo(s) if s == "x"));
}

#[test]
fn parse_is_defined_flags_wide_separators_after_directive_names() {
    assert!(parse_is_defined("--echo x\nSELECT 1;\n"));
    assert!(!parse_is_defined("--echo\u{a0}x\n"));
    assert!(parse_is_defined("SELECT\n--echo\u{a0}x;\n"));
    assert!(parse_is_defined("--echo\u{a0}\n"));
    assert!(parse_is_defined(""));
}

#[test]
fn joined_scripts_parse_to_joined_directives() {
    let a = "SELECT 1;\n--error 1062\n";
    let b = "INSERT INTO t VALUES (1);\n--echo done\n";
    let joined = format!("{a}{b}");
    let da = parse(a).unwrap();
    let db = parse(b).unwrap();
    let dj = parse(&joined).unwrap();
    assert_eq!(dj.len(), da.len() + db.len());
    assert_eq!(format!("{:?}", dj), format!("{:?}", da.into_iter().chain(db).collect::<Vec<_>>()));
    assert!(parse(&format!("{a}SELECT 2")).is_err());
}

#[test]
fn inserted_unknown_directive_lines_only_add_unknown_directives() {
    let plain = parse("SELECT 1;\nSELECT 2;\n").unwrap();
    let with_unknown = parse("SELECT 1;\n--disable_warnings\n--let $x = 1\nSELECT 2;\n").unwrap();
    assert_eq!(plain.len(), 2);
    assert_eq!(with_unknown.len(), 4);
    assert!(matches!(&with_unknown[1], Directive::Unknown(s) if s == "--disable_warnings"));
    assert!(matches!(&with_unknown[2], Directive::Unknown(s) if s == "--let $x = 1"));
    assert!(matches!(&with_unknown[3], Directive::Sql(s) if s == "SELECT 2"));
}

#[test]
fn parse_error_messages_have_the_original_wording() {
    let e = parse("SELECT 1\n  \"x\"\n").unwrap_err();
    assert_eq!(e.message(), "unterminated SQL statement at end of file: \"SELECT 1\\n  \\\"x\\\"\"");
    let e = parse("\n\n--error 1064,abc\n").unwrap_err();
    assert_eq!(e.message(), "line 3: --error: bad code list `1064,abc`: invalid digit found in string");
    let e = parse("--error 99999999999\n").unwrap_err();
    assert_eq!(
        e.message(),
        "line 1: --error: bad code list `99999999999`: number too large to fit in target type"
    );
    let e = ParseError::BadErrorCode { line: 4, args: String::new(), kind: CodeErrorKind::Empty };
    assert_eq!(e.message(), "line 4: --error: bad code list ``: cannot parse integer from empty string");
    let e = parse("\n--error\n").unwrap_err();
    assert_eq!(e.message(), "line 2: --error needs at least one code");
}

#[test]
fn unterminated_message_prefixes_the_quoted_text() {
    assert_eq!(
        unterminated_message("\"SELECT 1\""),
        "unterminated SQL statement at end of file: \"SELECT 1\""
    );
}
