//! Parser for the MTR (MySQL Test Run) script language.
//!
//! Supported subset: comments (`#`), blank lines, multi-line SQL terminated
//! by `;`, `--sorted_result`, `--error <codes>`, `--echo <text>`. Other
//! directives parse as `Unknown` so that a partial suite still moves forward.

use vstd::prelude::*;
use crate::result_diff::{debug_quoted, debug_str};
use crate::text::{
    chars_eq_str, chars_of, dec_digits, decimal, digit_char, has_text, is_whitespace, is_ws, lemma_has_text_trim, lemma_index_of,
    lemma_lines_concat, lemma_lines_final_newline, lines,
    push_all, push_str, slice_chars, split_chars, split_lines, split_on, string_of, strip_cr, texts, trim,
    trim_chars, trim_end, trim_end_by, trim_end_chars, trim_start, trim_start_chars,
};

verus! {

/// One step of an MTR script.
#[derive(Debug, Clone)]
pub enum Directive {
    /// A SQL statement (semicolon stripped) to send over the wire.
    Sql(String),
    /// Echo the given literal text into the result stream.
    Echo(String),
    /// The next `Sql` directive is expected to fail with one of these
    /// MySQL error codes.
    ExpectError(Vec<u32>),
    /// Sort the rows of the next `Sql` directive's output before diffing.
    SortedResult,
    /// A directive that is not implemented. Carries the raw line.
    Unknown(String),
}

/// The mathematical value of a [`Directive`].
pub enum DirectiveView {
    Sql(Seq<char>),
    Echo(Seq<char>),
    ExpectError(Seq<u32>),
    SortedResult,
    Unknown(Seq<char>),
}

impl View for Directive {
    type V = DirectiveView;

    open spec fn view(&self) -> DirectiveView {
        match self {
            Directive::Sql(s) => DirectiveView::Sql(s@),
            Directive::Echo(s) => DirectiveView::Echo(s@),
            Directive::ExpectError(c) => DirectiveView::ExpectError(c@),
            Directive::SortedResult => DirectiveView::SortedResult,
            Directive::Unknown(s) => DirectiveView::Unknown(s@),
        }
    }
}

/// Why a decimal error code did not parse (the cases of `u32::from_str`).
#[derive(Debug, Clone, Copy, PartialEq, Eq)]
pub enum CodeErrorKind {
    /// The text is empty.
    Empty,
    /// The text holds a character that is not a decimal digit.
    InvalidDigit,
    /// The value does not fit in a `u32`.
    PosOverflow,
}

/// Why a script was refused.
#[derive(Debug, Clone)]
pub enum ParseError {
    /// SQL text was left without a terminating `;` at the end of the input;
    /// carries the pending text.
    UnterminatedSql(String),
    /// An `--error` directive on line `line` with argument text `args` holds
    /// a code that is not a `u32`.
    BadErrorCode { line: usize, args: String, kind: CodeErrorKind },
    /// An `--error` directive on line `line` holds no code at all.
    MissingErrorCode { line: usize },
}

/// The mathematical value of a [`ParseError`].
pub enum ParseErrorView {
    UnterminatedSql(Seq<char>),
    BadErrorCode { line: nat, args: Seq<char>, kind: CodeErrorKind },
    MissingErrorCode { line: nat },
}

impl View for ParseError {
    type V = ParseErrorView;

    open spec fn view(&self) -> ParseErrorView {
        match self {
            ParseError::UnterminatedSql(s) => ParseErrorView::UnterminatedSql(s@),
            ParseError::BadErrorCode { line, args, kind } => ParseErrorView::BadErrorCode {
                line: *line as nat,
                args: args@,
                kind: *kind,
            },
            ParseError::MissingErrorCode { line } => ParseErrorView::MissingErrorCode {
                line: *line as nat,
            },
        }
    }
}

/// The words in which `u32::from_str` reports each kind of failure.
pub open spec fn code_error_text(k: CodeErrorKind) -> Seq<char> {
    match k {
        CodeErrorKind::Empty => "cannot parse integer from empty string"@,
        CodeErrorKind::InvalidDigit => "invalid digit found in string"@,
        CodeErrorKind::PosOverflow => "number too large to fit in target type"@,
    }
}

/// The message for a statement left open, given the `{:?}` text of the
/// pending statement text.
pub open spec fn unterminated_text(buf_dbg: Seq<char>) -> Seq<char> {
    "unterminated SQL statement at end of file: "@ + buf_dbg
}

/// The message that reports a [`ParseError`].
pub open spec fn parse_error_text(e: ParseErrorView) -> Seq<char> {
    match e {
        ParseErrorView::UnterminatedSql(buf) => unterminated_text(debug_quoted(buf)),
        ParseErrorView::BadErrorCode { line, args, kind } => "line "@ + dec_digits(line)
            + ": --error: bad code list `"@ + args + "`: "@ + code_error_text(kind),
        ParseErrorView::MissingErrorCode { line } => "line "@ + dec_digits(line)
            + ": --error needs at least one code"@,
    }
}

/// The message for a statement left open, given the `{:?}` text of the
/// pending statement text.
pub fn unterminated_message(buf_dbg: &str) -> (r: String)
    ensures
        r@ == unterminated_text(buf_dbg@),
{
    let mut out: Vec<char> = Vec::new();
    push_str(&mut out, "unterminated SQL statement at end of file: ");
    push_str(&mut out, buf_dbg);
    assert(out@ =~= unterminated_text(buf_dbg@));
    string_of(&out)
}

impl ParseError {
    /// The message that reports this error.
    pub fn message(&self) -> (r: String)
        ensures
            r@ == parse_error_text(self@),
    {
        match self {
            ParseError::UnterminatedSql(buf) => {
                let dbg = debug_str(buf.as_str());
                unterminated_message(dbg.as_str())
            },
            ParseError::BadErrorCode { line, args, kind } => {
                let mut out: Vec<char> = Vec::new();
                push_str(&mut out, "line ");
                let num = decimal(*line as u64);
                push_all(&mut out, &num);
                push_str(&mut out, ": --error: bad code list `");
                push_str(&mut out, args.as_str());
                push_str(&mut out, "`: ");
                match kind {
                    CodeErrorKind::Empty => push_str(
                        &mut out,
                        "cannot parse integer from empty string",
                    ),
                    CodeErrorKind::InvalidDigit => push_str(
                        &mut out,
                        "invalid digit found in string",
                    ),
                    CodeErrorKind::PosOverflow => push_str(
                        &mut out,
                        "number too large to fit in target type",
                    ),
                }
                assert(out@ =~= parse_error_text(self@));
                string_of(&out)
            },
            ParseError::MissingErrorCode { line } => {
                let mut out: Vec<char> = Vec::new();
                push_str(&mut out, "line ");
                let num = decimal(*line as u64);
                push_all(&mut out, &num);
                push_str(&mut out, ": --error needs at least one code");
                assert(out@ =~= parse_error_text(self@));
                string_of(&out)
            },
        }
    }
}

/// The views of a sequence of directives.
pub open spec fn directive_views(ds: Seq<Directive>) -> Seq<DirectiveView> {
    ds.map_values(|d: Directive| d@)
}

// ---------------------------------------------------------------------------
// Specification
// ---------------------------------------------------------------------------

/// An ASCII decimal digit.
pub open spec fn is_digit(c: char) -> bool {
    '0' <= c <= '9'
}

/// The value of the decimal digits `d` appended to `acc`, as `u32::from_str`
/// accumulates it from the left: the first non-digit, or the first digit at
/// which the value leaves `u32`, decides the error.
pub open spec fn digits_value(d: Seq<char>, acc: nat) -> Result<u32, CodeErrorKind>
    decreases d.len(),
{
    if d.len() == 0 {
        Ok(acc as u32)
    } else if !is_digit(d[0]) {
        Err(CodeErrorKind::InvalidDigit)
    } else {
        let v = acc * 10 + (d[0] as u32 - 48);
        if v > u32::MAX {
            Err(CodeErrorKind::PosOverflow)
        } else {
            digits_value(d.drop_first(), v as nat)
        }
    }
}

/// `u32::from_str`: an optional `+` followed by decimal digits.
pub open spec fn parse_code_spec(s: Seq<char>) -> Result<u32, CodeErrorKind> {
    if s.len() == 0 {
        Err(CodeErrorKind::Empty)
    } else if s[0] == '+' {
        if s.len() == 1 {
            Err(CodeErrorKind::InvalidDigit)
        } else {
            digits_value(s.drop_first(), 0)
        }
    } else {
        digits_value(s, 0)
    }
}

/// The codes of an `--error` argument list: the comma-separated pieces,
/// trimmed, blank ones skipped, parsed in order; the first bad piece decides
/// the error.
pub open spec fn parse_codes_spec(pieces: Seq<Seq<char>>) -> Result<Seq<u32>, CodeErrorKind>
    decreases pieces.len(),
{
    if pieces.len() == 0 {
        Ok(seq![])
    } else {
        let p = trim(pieces[0]);
        if p.len() == 0 {
            parse_codes_spec(pieces.drop_first())
        } else {
            match parse_code_spec(p) {
                Err(k) => Err(k),
                Ok(v) => match parse_codes_spec(pieces.drop_first()) {
                    Err(k) => Err(k),
                    Ok(vs) => Ok(seq![v] + vs),
                },
            }
        }
    }
}

/// Index of the first whitespace character of `s`, or `s.len()`.
pub open spec fn index_of_ws(s: Seq<char>) -> int
    decreases s.len(),
{
    if s.len() == 0 {
        0
    } else if is_ws(s[0]) {
        0
    } else {
        1 + index_of_ws(s.drop_first())
    }
}

/// Whether the directive text `rest` (what follows `--`) can be split into a
/// name and arguments: the argument text starts one byte after the first
/// whitespace character, so that character must be ASCII (a wider one would
/// make the split fall inside it).
pub open spec fn directive_defined(rest: Seq<char>) -> bool {
    let t = trim_start(rest);
    let k = index_of_ws(t);
    k >= t.len() || (t[k] as u32) < 0x80
}

/// The directive name of `rest`.
pub open spec fn directive_name(rest: Seq<char>) -> Seq<char> {
    let t = trim_start(rest);
    let k = index_of_ws(t);
    if k >= t.len() {
        trim(t)
    } else {
        t.take(k)
    }
}

/// The argument text of `rest`, trimmed.
pub open spec fn directive_args(rest: Seq<char>) -> Seq<char> {
    let t = trim_start(rest);
    let k = index_of_ws(t);
    if k >= t.len() {
        seq![]
    } else {
        trim(t.skip(k + 1))
    }
}

/// The directive that the text `rest` after a leading `--` on line `line`
/// stands for.
pub open spec fn directive_spec(rest: Seq<char>, line: nat) -> Result<DirectiveView, ParseErrorView> {
    let name = directive_name(rest);
    let args = directive_args(rest);
    if name == "sorted_result"@ {
        Ok(DirectiveView::SortedResult)
    } else if name == "echo"@ {
        Ok(DirectiveView::Echo(args))
    } else if name == "error"@ {
        match parse_codes_spec(split_on(args, ',')) {
            Err(kind) => Err(ParseErrorView::BadErrorCode { line, args, kind }),
            Ok(codes) => if codes.len() == 0 {
                Err(ParseErrorView::MissingErrorCode { line })
            } else {
                Ok(DirectiveView::ExpectError(codes))
            },
        }
    } else {
        Ok(DirectiveView::Unknown("--"@ + trim_start(rest)))
    }
}

/// A character that ends a statement's text and is dropped from it.
pub open spec fn is_stmt_tail(c: char) -> bool {
    c == ';' || c == ' ' || c == '\t' || c == '\r' || c == '\n'
}

/// A statement's text without its trailing `;` and blanks.
pub open spec fn stmt_text(buf: Seq<char>) -> Seq<char> {
    trim_end_by(buf, |c: char| is_stmt_tail(c))
}

/// Whether a (right-trimmed) line outside a statement is skipped.
pub open spec fn is_skipped_line(line: Seq<char>) -> bool {
    line.len() == 0 || line[0] == '#'
}

/// Whether a (right-trimmed) line outside a statement is a directive.
pub open spec fn is_directive_line(line: Seq<char>) -> bool {
    line.len() >= 2 && line[0] == '-' && line[1] == '-'
}

/// Whether a (right-trimmed) line ends a statement.
pub open spec fn ends_stmt(line: Seq<char>) -> bool {
    line.len() > 0 && line.last() == ';'
}

/// The statement text after `line` is added to the pending text `buf`.
pub open spec fn extend_buf(buf: Seq<char>, line: Seq<char>) -> Seq<char> {
    if buf.len() == 0 {
        line
    } else {
        buf.push('\n') + line
    }
}

/// Whether the lines `ls[i..]` can be processed from pending text `buf`
/// without reaching a directive whose name and arguments cannot be split.
pub open spec fn lines_defined(ls: Seq<Seq<char>>, i: int, buf: Seq<char>) -> bool
    decreases ls.len() - i,
{
    if i >= ls.len() || i < 0 {
        true
    } else {
        let line = trim_end(ls[i]);
        if buf.len() == 0 && is_skipped_line(line) {
            lines_defined(ls, i + 1, buf)
        } else if buf.len() == 0 && is_directive_line(line) {
            directive_defined(line.skip(2)) && lines_defined(ls, i + 1, buf)
        } else {
            let b = extend_buf(buf, line);
            if ends_stmt(line) {
                lines_defined(ls, i + 1, seq![])
            } else {
                lines_defined(ls, i + 1, b)
            }
        }
    }
}

/// The directives of the lines `ls[i..]`, given the pending statement text
/// `buf` and the directives `out` found before line `i`.
pub open spec fn parse_lines(
    ls: Seq<Seq<char>>,
    i: int,
    buf: Seq<char>,
    out: Seq<DirectiveView>,
) -> Result<Seq<DirectiveView>, ParseErrorView>
    decreases ls.len() - i,
{
    if i >= ls.len() || i < 0 {
        if trim(buf).len() > 0 {
            Err(ParseErrorView::UnterminatedSql(buf))
        } else {
            Ok(out)
        }
    } else {
        let line = trim_end(ls[i]);
        if buf.len() == 0 && is_skipped_line(line) {
            parse_lines(ls, i + 1, buf, out)
        } else if buf.len() == 0 && is_directive_line(line) {
            match directive_spec(line.skip(2), (i + 1) as nat) {
                Ok(d) => parse_lines(ls, i + 1, buf, out.push(d)),
                Err(e) => Err(e),
            }
        } else {
            let b = extend_buf(buf, line);
            if ends_stmt(line) {
                let stmt = stmt_text(b);
                parse_lines(
                    ls,
                    i + 1,
                    seq![],
                    if stmt.len() == 0 {
                        out
                    } else {
                        out.push(DirectiveView::Sql(stmt))
                    },
                )
            } else {
                parse_lines(ls, i + 1, b, out)
            }
        }
    }
}

/// Whether `parse` is defined on `input` (see [`directive_defined`]).
pub open spec fn parse_defined(input: Seq<char>) -> bool {
    lines_defined(lines(input), 0, seq![])
}

/// What `parse` gives for `input`.
pub open spec fn parse_spec(input: Seq<char>) -> Result<Seq<DirectiveView>, ParseErrorView> {
    parse_lines(lines(input), 0, seq![], seq![])
}

// ---------------------------------------------------------------------------
// Implementation
// ---------------------------------------------------------------------------

/// `u32::from_str` on a character sequence.
fn parse_code(s: &Vec<char>) -> (r: Result<u32, CodeErrorKind>)
    ensures
        r == parse_code_spec(s@),
{
    if s.len() == 0 {
        return Err(CodeErrorKind::Empty);
    }
    let mut start: usize = 0;
    if s[0] == '+' {
        if s.len() == 1 {
            return Err(CodeErrorKind::InvalidDigit);
        }
        start = 1;
        assert(s@.skip(1) =~= s@.drop_first());
    } else {
        assert(s@.skip(0) =~= s@);
    }
    let mut acc: u32 = 0;
    let mut i = start;
    while i < s.len()
        invariant
            start <= i <= s.len(),
            start == 0 || start == 1,
            parse_code_spec(s@) == digits_value(s@.skip(i as int), acc as nat),
        decreases s.len() - i,
    {
        let c = s[i];
        assert(s@.skip(i as int)[0] == c);
        if !('0' <= c && c <= '9') {
            return Err(CodeErrorKind::InvalidDigit);
        }
        let d = (c as u32) - 48;
        let v: u64 = (acc as u64) * 10 + (d as u64);
        if v > 0xffff_ffff {
            return Err(CodeErrorKind::PosOverflow);
        }
        assert(s@.skip(i as int).drop_first() =~= s@.skip(i + 1));
        acc = v as u32;
        i = i + 1;
    }
    assert(s@.skip(i as int).len() == 0);
    Ok(acc)
}

/// The codes of an `--error` argument list (see [`parse_codes_spec`]).
fn parse_codes(args: &Vec<char>) -> (r: Result<Vec<u32>, CodeErrorKind>)
    ensures
        match r {
            Ok(v) => parse_codes_spec(split_on(args@, ',')) == Ok::<Seq<u32>, CodeErrorKind>(v@),
            Err(k) => parse_codes_spec(split_on(args@, ',')) == Err::<Seq<u32>, CodeErrorKind>(k),
        },
{
    let pieces = split_chars(args, ',');
    let mut codes: Vec<u32> = Vec::new();
    let mut i: usize = 0;
    proof {
        assert(texts(pieces@).skip(0) =~= texts(pieces@));
        match parse_codes_spec(texts(pieces@)) {
            Ok(vs) => {
                assert(codes@ + vs =~= vs);
            },
            Err(_) => {},
        }
    }
    while i < pieces.len()
        invariant
            i <= pieces.len(),
            texts(pieces@) == split_on(args@, ','),
            parse_codes_spec(split_on(args@, ',')) == match parse_codes_spec(
                texts(pieces@).skip(i as int),
            ) {
                Ok(vs) => Ok(codes@ + vs),
                Err(k) => Err::<Seq<u32>, CodeErrorKind>(k),
            },
        decreases pieces.len() - i,
    {
        let ghost rest = texts(pieces@).skip(i as int);
        assert(rest[0] == pieces@[i as int]@);
        assert(rest.drop_first() =~= texts(pieces@).skip(i + 1));
        let p = trim_chars(&pieces[i]);
        if p.len() != 0 {
            match parse_code(&p) {
                Err(k) => {
                    return Err(k);
                },
                Ok(v) => {
                    let ghost old_codes = codes@;
                    codes.push(v);
                    proof {
                        match parse_codes_spec(texts(pieces@).skip(i + 1)) {
                            Ok(vs) => {
                                assert(old_codes + (seq![v] + vs) =~= codes@ + vs);
                            },
                            Err(_) => {},
                        }
                    }
                },
            }
        }
        i = i + 1;
    }
    assert(texts(pieces@).skip(i as int) =~= Seq::<Seq<char>>::empty());
    assert(codes@ + Seq::<u32>::empty() =~= codes@);
    Ok(codes)
}

/// Index of the first whitespace character of `v`, or `v.len()`.
fn find_ws(v: &Vec<char>) -> (k: usize)
    ensures
        k == index_of_ws(v@),
        k <= v.len(),
{
    let mut k: usize = 0;
    assert(v@.skip(0) =~= v@);
    while k < v.len() && !is_whitespace(v[k])
        invariant
            k <= v.len(),
            index_of_ws(v@) == k + index_of_ws(v@.skip(k as int)),
        decreases v.len() - k,
    {
        assert(v@.skip(k as int).drop_first() =~= v@.skip(k + 1));
        k = k + 1;
    }
    k
}

/// Parses the text after the leading `--` of a directive line; `lineno` is
/// the 1-based line number, used in errors.
pub fn parse_directive(rest: &str, lineno: usize) -> (r: Result<Directive, ParseError>)
    requires
        directive_defined(rest@),
    ensures
        match r {
            Ok(d) => directive_spec(rest@, lineno as nat) == Ok::<DirectiveView, ParseErrorView>(
                d@,
            ),
            Err(e) => directive_spec(rest@, lineno as nat) == Err::<DirectiveView, ParseErrorView>(
                e@,
            ),
        },
{
    let rest_chars = chars_of(rest);
    let trimmed = trim_start_chars(&rest_chars);
    let k = find_ws(&trimmed);
    proof {
        assert(trimmed@.skip(0) =~= trimmed@);
    }
    let name;
    let args;
    if k >= trimmed.len() {
        name = trim_chars(&trimmed);
        args = Vec::new();
    } else {
        name = slice_chars(&trimmed, 0, k);
        let tail = slice_chars(&trimmed, k + 1, trimmed.len());
        assert(tail@ =~= trimmed@.skip(k + 1));
        args = trim_chars(&tail);
    }
    assert(name@ == directive_name(rest@));
    assert(args@ == directive_args(rest@));
    if chars_eq_str(&name, "sorted_result") {
        Ok(Directive::SortedResult)
    } else if chars_eq_str(&name, "echo") {
        Ok(Directive::Echo(string_of(&args)))
    } else if chars_eq_str(&name, "error") {
        match parse_codes(&args) {
            Err(kind) => Err(ParseError::BadErrorCode { line: lineno, args: string_of(&args), kind }),
            Ok(codes) => {
                if codes.len() == 0 {
                    Err(ParseError::MissingErrorCode { line: lineno })
                } else {
                    Ok(Directive::ExpectError(codes))
                }
            },
        }
    } else {
        let mut raw = chars_of("--");
        push_all(&mut raw, &trimmed);
        Ok(Directive::Unknown(string_of(&raw)))
    }
}

/// Whether the directive text `rest` can be split into a name and
/// arguments (see [`directive_defined`]).
fn directive_is_defined(rest: &Vec<char>) -> (r: bool)
    ensures
        r == directive_defined(rest@),
{
    let trimmed = trim_start_chars(rest);
    let k = find_ws(&trimmed);
    k >= trimmed.len() || (trimmed[k] as u32) < 0x80
}

/// Whether [`parse`] is defined on `input`: no directive line outside a
/// statement has a non-ASCII whitespace character right after its name.
pub fn parse_is_defined(input: &str) -> (r: bool)
    ensures
        r == parse_defined(input@),
{
    let text = chars_of(input);
    let ls = split_lines(&text);
    let mut in_stmt = false;
    let mut i: usize = 0;
    let ghost mut buf: Seq<char> = seq![];
    while i < ls.len()
        invariant
            i <= ls.len(),
            texts(ls@) == lines(input@),
            in_stmt == (buf.len() > 0),
            parse_defined(input@) == lines_defined(texts(ls@), i as int, buf),
        decreases ls.len() - i,
    {
        let line = trim_end_chars(&ls[i]);
        assert(line@ == trim_end(texts(ls@)[i as int]));
        if !in_stmt && (line.len() == 0 || line[0] == '#') {
        } else if !in_stmt && line.len() >= 2 && line[0] == '-' && line[1] == '-' {
            let rest = slice_chars(&line, 2, line.len());
            assert(rest@ =~= line@.skip(2));
            if !directive_is_defined(&rest) {
                return false;
            }
        } else {
            proof {
                buf = extend_buf(buf, line@);
                if line@.len() > 0 && line@.last() == ';' {
                    buf = seq![];
                }
            }
            in_stmt = !(line.len() > 0 && line[line.len() - 1] == ';');
        }
        i = i + 1;
    }
    true
}

/// A statement's text without its trailing `;` and blanks.
fn stmt_text_chars(v: &Vec<char>) -> (r: Vec<char>)
    ensures
        r@ == stmt_text(v@),
{
    let mut k = v.len();
    assert(v@.take(k as int) =~= v@);
    while k > 0 && (v[k - 1] == ';' || v[k - 1] == ' ' || v[k - 1] == '\t' || v[k - 1] == '\r'
        || v[k - 1] == '\n')
        invariant
            k <= v.len(),
            stmt_text(v@) == stmt_text(v@.take(k as int)),
        decreases k,
    {
        assert(v@.take(k as int).drop_last() =~= v@.take(k - 1));
        k = k - 1;
    }
    slice_chars(v, 0, k)
}

/// Parses an MTR script into its directives.
///
/// Outside a statement, blank lines and lines starting with `#` are skipped
/// and lines starting with `--` are directives; every other line is SQL text,
/// collected (joined by newlines) until a line ends with `;`. The statement is
/// emitted without its trailing `;` and blanks, and not at all when nothing
/// else is left. SQL text pending at the end of the input is an error.
pub fn parse(input: &str) -> (r: Result<Vec<Directive>, ParseError>)
    requires
        parse_defined(input@),
    ensures
        match r {
            Ok(ds) => parse_spec(input@) == Ok::<Seq<DirectiveView>, ParseErrorView>(
                directive_views(ds@),
            ),
            Err(e) => parse_spec(input@) == Err::<Seq<DirectiveView>, ParseErrorView>(e@),
        },
{
    let text = chars_of(input);
    let ls = split_lines(&text);
    let mut out: Vec<Directive> = Vec::new();
    let mut buf: Vec<char> = Vec::new();
    let mut i: usize = 0;
    assert(directive_views(out@) =~= Seq::<DirectiveView>::empty());
    assert(buf@ =~= Seq::<char>::empty());
    while i < ls.len()
        invariant
            i <= ls.len(),
            texts(ls@) == lines(input@),
            lines_defined(texts(ls@), i as int, buf@),
            parse_spec(input@) == parse_lines(texts(ls@), i as int, buf@, directive_views(out@)),
        decreases ls.len() - i,
    {
        let line = trim_end_chars(&ls[i]);
        assert(line@ == trim_end(texts(ls@)[i as int]));
        let lineno = i + 1;
        if buf.len() == 0 && (line.len() == 0 || line[0] == '#') {
            i = i + 1;
        } else if buf.len() == 0 && line.len() >= 2 && line[0] == '-' && line[1] == '-' {
            let rest = slice_chars(&line, 2, line.len());
            assert(rest@ =~= line@.skip(2));
            let rest_str = string_of(&rest);
            match parse_directive(rest_str.as_str(), lineno) {
                Ok(d) => {
                    let ghost old_out = directive_views(out@);
                    out.push(d);
                    assert(directive_views(out@) =~= old_out.push(d@));
                },
                Err(e) => {
                    return Err(e);
                },
            }
            i = i + 1;
        } else {
            let ghost prev_buf = buf@;
            if buf.len() != 0 {
                buf.push('\n');
            }
            push_all(&mut buf, &line);
            assert(buf@ == extend_buf(prev_buf, line@)) by {
                if prev_buf.len() == 0 {
                    assert(buf@ =~= line@);
                }
            };
            if line.len() > 0 && line[line.len() - 1] == ';' {
                let stmt = stmt_text_chars(&buf);
                buf = Vec::new();
                assert(buf@ =~= Seq::<char>::empty());
                if stmt.len() > 0 {
                    let ghost old_out = directive_views(out@);
                    let s = string_of(&stmt);
                    out.push(Directive::Sql(s));
                    assert(directive_views(out@) =~= old_out.push(DirectiveView::Sql(stmt@)));
                }
            }
            i = i + 1;
        }
    }
    let t = trim_chars(&buf);
    if t.len() > 0 {
        return Err(ParseError::UnterminatedSql(string_of(&buf)));
    }
    Ok(out)
}

// ---------------------------------------------------------------------------
// Laws
// ---------------------------------------------------------------------------

/// What every parsed script satisfies: statements are non-empty and carry no
/// trailing `;` or blank, and every `--error` names at least one code.
pub open spec fn directives_well_formed(ds: Seq<DirectiveView>) -> bool {
    forall|i: int|
        0 <= i < ds.len() ==> match #[trigger] ds[i] {
            DirectiveView::Sql(s) => s.len() > 0 && !is_stmt_tail(s.last()),
            DirectiveView::ExpectError(c) => c.len() > 0,
            _ => true,
        }
}

/// Trimming leaves no trailing character that satisfies the predicate.
proof fn lemma_trim_end_by_last(s: Seq<char>, p: spec_fn(char) -> bool)
    ensures
        trim_end_by(s, p).len() > 0 ==> !p(trim_end_by(s, p).last()),
    decreases s.len(),
{
    if s.len() > 0 && p(s.last()) {
        lemma_trim_end_by_last(s.drop_last(), p);
    }
}

proof fn lemma_parse_lines_well_formed(
    ls: Seq<Seq<char>>,
    i: int,
    buf: Seq<char>,
    out: Seq<DirectiveView>,
)
    requires
        directives_well_formed(out),
    ensures
        parse_lines(ls, i, buf, out) matches Ok(ds) ==> directives_well_formed(ds),
    decreases ls.len() - i,
{
    if i >= ls.len() || i < 0 {
    } else {
        let line = trim_end(ls[i]);
        if buf.len() == 0 && is_skipped_line(line) {
            lemma_parse_lines_well_formed(ls, i + 1, buf, out);
        } else if buf.len() == 0 && is_directive_line(line) {
            match directive_spec(line.skip(2), (i + 1) as nat) {
                Ok(d) => {
                    assert(directives_well_formed(out.push(d))) by {
                        assert forall|j: int| 0 <= j < out.push(d).len() implies match #[trigger] out.push(
                            d,
                        )[j] {
                            DirectiveView::Sql(s) => s.len() > 0 && !is_stmt_tail(s.last()),
                            DirectiveView::ExpectError(c) => c.len() > 0,
                            _ => true,
                        } by {
                            if j < out.len() {
                                assert(out.push(d)[j] == out[j]);
                            }
                        }
                    }
                    lemma_parse_lines_well_formed(ls, i + 1, buf, out.push(d));
                },
                Err(_) => {},
            }
        } else {
            let b = extend_buf(buf, line);
            if ends_stmt(line) {
                let stmt = stmt_text(b);
                lemma_trim_end_by_last(b, |c: char| is_stmt_tail(c));
                if stmt.len() == 0 {
                    lemma_parse_lines_well_formed(ls, i + 1, seq![], out);
                } else {
                    let d = DirectiveView::Sql(stmt);
                    assert(directives_well_formed(out.push(d))) by {
                        assert forall|j: int| 0 <= j < out.push(d).len() implies match #[trigger] out.push(
                            d,
                        )[j] {
                            DirectiveView::Sql(s) => s.len() > 0 && !is_stmt_tail(s.last()),
                            DirectiveView::ExpectError(c) => c.len() > 0,
                            _ => true,
                        } by {
                            if j < out.len() {
                                assert(out.push(d)[j] == out[j]);
                            }
                        }
                    }
                    lemma_parse_lines_well_formed(ls, i + 1, seq![], out.push(d));
                }
            } else {
                lemma_parse_lines_well_formed(ls, i + 1, b, out);
            }
        }
    }
}

/// Every script that parses yields well-formed directives: no empty
/// statement, no statement with a trailing `;` or blank, no `--error`
/// without codes.
pub proof fn lemma_parse_output_well_formed(input: Seq<char>)
    ensures
        parse_spec(input) matches Ok(ds) ==> directives_well_formed(ds),
{
    lemma_parse_lines_well_formed(lines(input), 0, seq![], seq![]);
}

/// Dropping a carriage return before the line ending does not change how
/// a line is read.
proof fn lemma_trim_end_strip_cr(x: Seq<char>)
    ensures
        trim_end(strip_cr(x)) == trim_end(x),
{
    if x.len() > 0 && x.last() == '\r' {
        assert(is_ws('\r'));
    }
}

/// The parse reads each line only through its right-trimmed text.
proof fn lemma_parse_lines_reads_trimmed(
    a: Seq<Seq<char>>,
    b: Seq<Seq<char>>,
    i: int,
    buf: Seq<char>,
    out: Seq<DirectiveView>,
)
    requires
        a.len() == b.len(),
        forall|j: int| 0 <= j < a.len() ==> trim_end(#[trigger] a[j]) == trim_end(b[j]),
    ensures
        parse_lines(a, i, buf, out) == parse_lines(b, i, buf, out),
        lines_defined(a, i, buf) == lines_defined(b, i, buf),
    decreases a.len() - i,
{
    if 0 <= i < a.len() {
        let line = trim_end(a[i]);
        assert(line == trim_end(b[i]));
        let b2 = extend_buf(buf, line);
        lemma_parse_lines_reads_trimmed(a, b, i + 1, buf, out);
        lemma_parse_lines_reads_trimmed(a, b, i + 1, seq![], out);
        lemma_parse_lines_reads_trimmed(a, b, i + 1, b2, out);
        lemma_parse_lines_reads_trimmed(a, b, i + 1, seq![], out.push(DirectiveView::Sql(stmt_text(b2))));
        match directive_spec(line.skip(2), (i + 1) as nat) {
            Ok(d) => {
                lemma_parse_lines_reads_trimmed(a, b, i + 1, buf, out.push(d));
            },
            Err(_) => {},
        }
    }
}

/// The final line ending of a script is optional: a script parses the same
/// with or without a `\n` after its last line.
pub proof fn lemma_final_newline_is_optional(input: Seq<char>)
    requires
        input.len() == 0 || input.last() != '\n',
    ensures
        parse_spec(input.push('\n')) == parse_spec(input),
        parse_defined(input.push('\n')) == parse_defined(input),
{
    let t = input.push('\n');
    if input.len() == 0 {
        lemma_index_of(t, '\n', 0);
        assert(t.take(0) =~= Seq::<char>::empty());
        assert(t.skip(1) =~= Seq::<char>::empty());
        let ls = lines(t);
        assert(lines(Seq::<char>::empty()) == Seq::<Seq<char>>::empty());
        assert(ls == seq![strip_cr(t.take(0))] + lines(t.skip(1)));
        assert(strip_cr(Seq::<char>::empty()) == Seq::<char>::empty());
        assert(ls =~= seq![Seq::<char>::empty()]);
        let e = Seq::<char>::empty();
        assert(trim_end(e) == e);
        assert(trim_start(e) == e);
        assert(trim(e) == e);
        assert(trim_end(ls[0]) =~= e);
        assert(lines(input) =~= Seq::<Seq<char>>::empty());
        assert(parse_lines(ls, 1, e, seq![]) == parse_lines(lines(input), 0, e, seq![]));
        assert(lines_defined(ls, 1, e) == lines_defined(lines(input), 0, e));
    } else {
        lemma_lines_final_newline(input);
        let a = lines(t);
        let b = lines(input);
        assert forall|j: int| 0 <= j < a.len() implies trim_end(#[trigger] a[j]) == trim_end(b[j]) by {
            if j == b.len() - 1 {
                lemma_trim_end_strip_cr(b[j]);
            }
        }
        lemma_parse_lines_reads_trimmed(a, b, 0, seq![], seq![]);
    }
}

/// The pending statement text is empty or holds something besides blanks.
pub open spec fn buf_ok(buf: Seq<char>) -> bool {
    buf.len() == 0 || has_text(buf)
}

/// After reading lines `i..` of `la` successfully, the parse of `la + lb`
/// stands at the start of `lb` with no statement open and the same output.
proof fn lemma_parse_lines_prefix(
    la: Seq<Seq<char>>,
    lb: Seq<Seq<char>>,
    i: int,
    buf: Seq<char>,
    out: Seq<DirectiveView>,
)
    requires
        0 <= i <= la.len(),
        buf_ok(buf),
        parse_lines(la, i, buf, out) is Ok,
    ensures
        parse_lines(la, i, buf, out) matches Ok(d) ==> parse_lines(la + lb, i, buf, out)
            == parse_lines(la + lb, la.len() as int, seq![], d),
    decreases la.len() - i,
{
    let ls = la + lb;
    if i == la.len() {
        if buf.len() > 0 {
            lemma_has_text_trim(buf);
        }
        assert(buf =~= Seq::<char>::empty());
    } else {
        assert(ls[i] == la[i]);
        let line = trim_end(la[i]);
        if buf.len() == 0 && is_skipped_line(line) {
            lemma_parse_lines_prefix(la, lb, i + 1, buf, out);
        } else if buf.len() == 0 && is_directive_line(line) {
            match directive_spec(line.skip(2), (i + 1) as nat) {
                Ok(d) => {
                    lemma_parse_lines_prefix(la, lb, i + 1, buf, out.push(d));
                },
                Err(_) => {},
            }
        } else {
            let b = extend_buf(buf, line);
            if ends_stmt(line) {
                let stmt = stmt_text(b);
                let out2 = if stmt.len() == 0 {
                    out
                } else {
                    out.push(DirectiveView::Sql(stmt))
                };
                assert(buf_ok(Seq::<char>::empty()));
                lemma_parse_lines_prefix(la, lb, i + 1, seq![], out2);
            } else {
                assert(has_text(b)) by {
                    if buf.len() > 0 {
                        let j = choose|j: int| 0 <= j < buf.len() && !is_ws(#[trigger] buf[j]);
                        assert(b[j] == buf[j]);
                    } else {
                        lemma_trim_end_by_last(la[i], |c: char| is_ws(c));
                        assert(b[b.len() - 1] == line.last());
                    }
                }
                lemma_parse_lines_prefix(la, lb, i + 1, b, out);
            }
        }
    }
}

/// A failure met while reading lines `i..` of `la`, other than text left
/// open at the end, is met in the same way when more lines follow.
proof fn lemma_parse_lines_prefix_err(
    la: Seq<Seq<char>>,
    lb: Seq<Seq<char>>,
    i: int,
    buf: Seq<char>,
    out: Seq<DirectiveView>,
)
    requires
        0 <= i <= la.len(),
        parse_lines(la, i, buf, out) is Err,
        !(parse_lines(la, i, buf, out) matches Err(ParseErrorView::UnterminatedSql(_))),
    ensures
        parse_lines(la + lb, i, buf, out) == parse_lines(la, i, buf, out),
    decreases la.len() - i,
{
    let ls = la + lb;
    if i < la.len() {
        assert(ls[i] == la[i]);
        let line = trim_end(la[i]);
        if buf.len() == 0 && is_skipped_line(line) {
            lemma_parse_lines_prefix_err(la, lb, i + 1, buf, out);
        } else if buf.len() == 0 && is_directive_line(line) {
            match directive_spec(line.skip(2), (i + 1) as nat) {
                Ok(d) => {
                    lemma_parse_lines_prefix_err(la, lb, i + 1, buf, out.push(d));
                },
                Err(_) => {},
            }
        } else {
            let b = extend_buf(buf, line);
            if ends_stmt(line) {
                let stmt = stmt_text(b);
                let out2 = if stmt.len() == 0 {
                    out
                } else {
                    out.push(DirectiveView::Sql(stmt))
                };
                lemma_parse_lines_prefix_err(la, lb, i + 1, seq![], out2);
            } else {
                lemma_parse_lines_prefix_err(la, lb, i + 1, b, out);
            }
        }
    }
}

/// Parses that read the same lines from some point on agree on whether
/// they succeed, and on what they give when they do.
proof fn lemma_parse_lines_shift(
    l1: Seq<Seq<char>>,
    i1: int,
    l2: Seq<Seq<char>>,
    i2: int,
    buf: Seq<char>,
    out: Seq<DirectiveView>,
)
    requires
        0 <= i1 <= l1.len(),
        0 <= i2 <= l2.len(),
        l1.len() - i1 == l2.len() - i2,
        forall|j: int| 0 <= j < l1.len() - i1 ==> l1[i1 + j] == #[trigger] l2[i2 + j],
    ensures
        (parse_lines(l1, i1, buf, out) is Ok) == (parse_lines(l2, i2, buf, out) is Ok),
        parse_lines(l1, i1, buf, out) is Ok ==> parse_lines(l1, i1, buf, out) == parse_lines(
            l2,
            i2,
            buf,
            out,
        ),
    decreases l1.len() - i1,
{
    if i1 < l1.len() {
        assert(l1[i1 + 0] == l2[i2 + 0]);
        let line = trim_end(l1[i1]);
        assert forall|j: int| 0 <= j < l1.len() - (i1 + 1) implies l1[(i1 + 1) + j]
            == #[trigger] l2[(i2 + 1) + j] by {
            assert(l1[i1 + (j + 1)] == l2[i2 + (j + 1)]);
        }
        let b = extend_buf(buf, line);
        lemma_parse_lines_shift(l1, i1 + 1, l2, i2 + 1, buf, out);
        lemma_parse_lines_shift(l1, i1 + 1, l2, i2 + 1, seq![], out);
        lemma_parse_lines_shift(l1, i1 + 1, l2, i2 + 1, b, out);
        lemma_parse_lines_shift(
            l1,
            i1 + 1,
            l2,
            i2 + 1,
            seq![],
            out.push(DirectiveView::Sql(stmt_text(b))),
        );
        match directive_spec(line.skip(2), (i1 + 1) as nat) {
            Ok(d) => {
                lemma_parse_lines_shift(l1, i1 + 1, l2, i2 + 1, buf, out.push(d));
            },
            Err(_) => {},
        }
        assert(directive_spec(line.skip(2), (i1 + 1) as nat) is Ok == directive_spec(
            line.skip(2),
            (i2 + 1) as nat,
        ) is Ok);
        assert(directive_spec(line.skip(2), (i1 + 1) as nat) is Ok ==> directive_spec(
            line.skip(2),
            (i1 + 1) as nat,
        ) == directive_spec(line.skip(2), (i2 + 1) as nat));
    }
}

/// The directives found so far are a prefix of the result.
proof fn lemma_parse_lines_out(ls: Seq<Seq<char>>, i: int, buf: Seq<char>, out: Seq<DirectiveView>)
    ensures
        (parse_lines(ls, i, buf, out) is Ok) == (parse_lines(ls, i, buf, seq![]) is Ok),
        parse_lines(ls, i, buf, seq![]) matches Ok(d) ==> parse_lines(ls, i, buf, out) == Ok::<
            Seq<DirectiveView>,
            ParseErrorView,
        >(out + d),
    decreases ls.len() - i,
{
    if i >= ls.len() || i < 0 {
        assert(out + Seq::<DirectiveView>::empty() =~= out);
    } else {
        let line = trim_end(ls[i]);
        let e = Seq::<DirectiveView>::empty();
        if buf.len() == 0 && is_skipped_line(line) {
            lemma_parse_lines_out(ls, i + 1, buf, out);
        } else if buf.len() == 0 && is_directive_line(line) {
            match directive_spec(line.skip(2), (i + 1) as nat) {
                Ok(d) => {
                    lemma_parse_lines_out(ls, i + 1, buf, out.push(d));
                    lemma_parse_lines_out(ls, i + 1, buf, e.push(d));
                    match parse_lines(ls, i + 1, buf, seq![]) {
                        Ok(r) => {
                            assert(out.push(d) + r =~= out + (e.push(d) + r));
                        },
                        Err(_) => {},
                    }
                },
                Err(_) => {},
            }
        } else {
            let b = extend_buf(buf, line);
            if ends_stmt(line) {
                let stmt = stmt_text(b);
                if stmt.len() == 0 {
                    lemma_parse_lines_out(ls, i + 1, seq![], out);
                } else {
                    let d = DirectiveView::Sql(stmt);
                    lemma_parse_lines_out(ls, i + 1, seq![], out.push(d));
                    lemma_parse_lines_out(ls, i + 1, seq![], e.push(d));
                    match parse_lines(ls, i + 1, seq![], seq![]) {
                        Ok(r) => {
                            assert(out.push(d) + r =~= out + (e.push(d) + r));
                        },
                        Err(_) => {},
                    }
                }
            } else {
                lemma_parse_lines_out(ls, i + 1, b, out);
            }
        }
    }
}

/// Scripts that end with a line ending can be joined: when `a` parses,
/// `a` followed by `b` parses exactly when `b` does, to the directives of
/// `a` followed by those of `b`.
pub proof fn lemma_parse_concatenation(a: Seq<char>, b: Seq<char>)
    requires
        a.len() == 0 || a.last() == '\n',
        parse_spec(a) is Ok,
    ensures
        (parse_spec(a + b) is Ok) == (parse_spec(b) is Ok),
        match (parse_spec(a), parse_spec(b)) {
            (Ok(da), Ok(db)) => parse_spec(a + b) == Ok::<Seq<DirectiveView>, ParseErrorView>(
                da + db,
            ),
            _ => true,
        },
{
    let la = lines(a);
    let lb = lines(b);
    lemma_lines_concat(a, b);
    let e = Seq::<char>::empty();
    assert(buf_ok(e));
    lemma_parse_lines_prefix(la, lb, 0, e, seq![]);
    let da = match parse_spec(a) {
        Ok(d) => d,
        Err(_) => seq![],
    };
    assert forall|j: int| 0 <= j < (la + lb).len() - la.len() implies (la + lb)[la.len() + j]
        == #[trigger] lb[0 + j] by {}
    lemma_parse_lines_shift(la + lb, la.len() as int, lb, 0, e, da);
    lemma_parse_lines_out(lb, 0, e, da);
}

/// A script that ends with a line ending and is refused for a reason other
/// than a statement left open is refused in the same way whatever follows it.
pub proof fn lemma_refusal_is_kept(a: Seq<char>, b: Seq<char>)
    requires
        a.len() == 0 || a.last() == '\n',
        parse_spec(a) is Err,
        !(parse_spec(a) matches Err(ParseErrorView::UnterminatedSql(_))),
    ensures
        parse_spec(a + b) == parse_spec(a),
{
    lemma_lines_concat(a, b);
    lemma_parse_lines_prefix_err(lines(a), lines(b), 0, seq![], seq![]);
}

/// The digit character of `d < 10` is a decimal digit of value `d`.
proof fn lemma_digit_char_value(d: nat)
    requires
        d < 10,
    ensures
        is_digit(digit_char(d)),
        digit_char(d) as u32 - 48 == d,
{
    assert(((d + 48) as u8) as nat == d + 48);
}

/// Every character of a decimal representation is a decimal digit.
proof fn lemma_dec_digits_are_digits(n: nat)
    ensures
        dec_digits(n).len() > 0,
        forall|j: int| 0 <= j < dec_digits(n).len() ==> is_digit(#[trigger] dec_digits(n)[j]),
    decreases n,
{
    if n < 10 {
        lemma_digit_char_value(n);
    } else {
        lemma_dec_digits_are_digits(n / 10);
        lemma_digit_char_value(n % 10);
        let d = dec_digits(n / 10);
        assert forall|j: int| 0 <= j < dec_digits(n).len() implies is_digit(
            #[trigger] dec_digits(n)[j],
        ) by {
            if j < d.len() {
                assert(dec_digits(n)[j] == d[j]);
            }
        }
    }
}

/// Reading one more digit continues from the value read so far.
proof fn lemma_digits_value_push(d: Seq<char>, c: char, acc: nat)
    requires
        acc <= u32::MAX,
    ensures
        digits_value(d.push(c), acc) == match digits_value(d, acc) {
            Ok(v) => digits_value(seq![c], v as nat),
            Err(k) => Err(k),
        },
    decreases d.len(),
{
    if d.len() == 0 {
        assert(d.push(c) =~= seq![c]);
    } else {
        assert(d.push(c)[0] == d[0]);
        assert(d.push(c).drop_first() =~= d.drop_first().push(c));
        if is_digit(d[0]) {
            let v = acc * 10 + (d[0] as u32 - 48);
            if v <= u32::MAX {
                lemma_digits_value_push(d.drop_first(), c, v as nat);
            }
        }
    }
}

/// The decimal representation of a `u32` value reads back as that value.
proof fn lemma_dec_digits_value(n: nat)
    requires
        n <= u32::MAX,
    ensures
        digits_value(dec_digits(n), 0) == Ok::<u32, CodeErrorKind>(n as u32),
    decreases n,
{
    lemma_digit_char_value(n % 10);
    let c = digit_char(n % 10);
    let s = seq![c];
    assert(s.drop_first() =~= Seq::<char>::empty());
    let e = Seq::<char>::empty();
    if n < 10 {
        assert(dec_digits(n) == s);
        assert(digits_value(e, n) == Ok::<u32, CodeErrorKind>(n as u32));
        assert(digits_value(s, 0) == digits_value(e, n));
    } else {
        lemma_dec_digits_value(n / 10);
        lemma_digits_value_push(dec_digits(n / 10), c, 0);
        assert((n / 10) * 10 + n % 10 == n);
        assert(digits_value(e, n) == Ok::<u32, CodeErrorKind>(n as u32));
        assert(digits_value(s, n / 10) == digits_value(e, n));
    }
}

/// Leading zeros do not change the value read.
proof fn lemma_leading_zeros_value(k: nat, d: Seq<char>)
    ensures
        digits_value(Seq::new(k, |i: int| '0') + d, 0) == digits_value(d, 0),
    decreases k,
{
    if k > 0 {
        let s = Seq::new(k, |i: int| '0') + d;
        assert(s[0] == '0');
        assert(s.drop_first() =~= Seq::new((k - 1) as nat, |i: int| '0') + d);
        lemma_leading_zeros_value((k - 1) as nat, d);
    } else {
        assert(Seq::new(k, |i: int| '0') + d =~= d);
    }
}

/// An `--error` code written in decimal reads back as its value, as
/// `u32::from_str` reads it: for every value that fits in `u32`, its decimal
/// digits, after any number of leading zeros and with or without a leading
/// `+`, give that value.
pub proof fn lemma_decimal_code_reads_back(n: nat, zeros: nat)
    requires
        n <= u32::MAX,
    ensures
        parse_code_spec(Seq::new(zeros, |i: int| '0') + dec_digits(n)) == Ok::<u32, CodeErrorKind>(
            n as u32,
        ),
        parse_code_spec(seq!['+'] + Seq::new(zeros, |i: int| '0') + dec_digits(n)) == Ok::<
            u32,
            CodeErrorKind,
        >(n as u32),
{
    lemma_dec_digits_are_digits(n);
    lemma_dec_digits_value(n);
    lemma_leading_zeros_value(zeros, dec_digits(n));
    let body = Seq::new(zeros, |i: int| '0') + dec_digits(n);
    if zeros > 0 {
        assert(body[0] == '0');
    } else {
        assert(body[0] == dec_digits(n)[0]);
        assert(is_digit(dec_digits(n)[0]));
    }
    let plus = seq!['+'] + Seq::new(zeros, |i: int| '0') + dec_digits(n);
    assert(plus[0] == '+');
    assert(plus.drop_first() =~= body);
}

/// The base-10 value of a sequence of decimal digits.
pub open spec fn decimal_value(d: Seq<char>) -> nat
    decreases d.len(),
{
    if d.len() == 0 {
        0
    } else {
        decimal_value(d.drop_last()) * 10 + (d.last() as nat - 48) as nat
    }
}

/// Every character of `d` is an ASCII decimal digit.
pub open spec fn all_digits(d: Seq<char>) -> bool {
    forall|j: int| 0 <= j < d.len() ==> '0' <= #[trigger] d[j] <= '9'
}

/// On decimal digits, the reading succeeds with the base-10 value when it
/// fits and fails with an overflow when it does not.
proof fn lemma_digits_value_is_decimal(d: Seq<char>)
    requires
        all_digits(d),
    ensures
        digits_value(d, 0) == if decimal_value(d) <= u32::MAX {
            Ok::<u32, CodeErrorKind>(decimal_value(d) as u32)
        } else {
            Err::<u32, CodeErrorKind>(CodeErrorKind::PosOverflow)
        },
    decreases d.len(),
{
    if d.len() > 0 {
        let init = d.drop_last();
        let c = d.last();
        assert(all_digits(init)) by {
            assert forall|j: int| 0 <= j < init.len() implies '0' <= #[trigger] init[j] <= '9' by {
                assert(init[j] == d[j]);
            }
        }
        assert('0' <= d[d.len() - 1] <= '9');
        lemma_digits_value_is_decimal(init);
        lemma_digits_value_push(init, c, 0);
        assert(init.push(c) =~= d);
        let one = seq![c];
        assert(one.drop_first() =~= Seq::<char>::empty());
        let x = (c as nat - 48) as nat;
        assert(c as u32 - 48 == x);
        assert(decimal_value(d) == decimal_value(init) * 10 + x);
        if decimal_value(init) <= u32::MAX {
            let w = decimal_value(init);
            assert(digits_value(init, 0) == Ok::<u32, CodeErrorKind>(w as u32));
            assert((w as u32) as nat == w);
            assert(digits_value(d, 0) == digits_value(one, w));
            if w * 10 + x <= u32::MAX {
                assert(digits_value(one, w) == digits_value(one.drop_first(), (w * 10 + x) as nat));
            } else {
                assert(digits_value(one, w) == Err::<u32, CodeErrorKind>(CodeErrorKind::PosOverflow));
            }
        } else {
            assert(digits_value(d, 0) == Err::<u32, CodeErrorKind>(CodeErrorKind::PosOverflow));
        }
    }
}

/// A character that is not a decimal digit makes the reading fail.
proof fn lemma_digits_value_rejects(d: Seq<char>, acc: nat, j: int)
    requires
        0 <= j < d.len(),
        !('0' <= d[j] <= '9'),
    ensures
        digits_value(d, acc) is Err,
    decreases d.len(),
{
    if is_digit(d[0]) {
        assert(j > 0);
        assert(d.drop_first()[j - 1] == d[j]);
        let v = acc * 10 + (d[0] as u32 - 48);
        if v <= u32::MAX {
            lemma_digits_value_rejects(d.drop_first(), v as nat, j - 1);
        }
    }
}

/// What an `--error` code reads as, as `u32::from_str` reads it: after an
/// optional leading `+`, a non-empty run of ASCII decimal digits reads as
/// its base-10 value when that fits in `u32`, and as an overflow when it
/// does not; anything else is refused (an empty text as empty, any other
/// character as an invalid digit, unless an overflow comes first).
pub proof fn lemma_code_reads_its_decimal_value(s: Seq<char>)
    ensures
        ({
            let d = if s.len() > 0 && s[0] == '+' {
                s.drop_first()
            } else {
                s
            };
            &&& s.len() == 0 <==> parse_code_spec(s) == Err::<u32, CodeErrorKind>(
                CodeErrorKind::Empty,
            )
            &&& d.len() > 0 && all_digits(d) && decimal_value(d) <= u32::MAX ==> parse_code_spec(s)
                == Ok::<u32, CodeErrorKind>(decimal_value(d) as u32)
            &&& d.len() > 0 && all_digits(d) && decimal_value(d) > u32::MAX ==> parse_code_spec(s)
                == Err::<u32, CodeErrorKind>(CodeErrorKind::PosOverflow)
            &&& parse_code_spec(s) is Ok ==> d.len() > 0 && all_digits(d) && decimal_value(d)
                <= u32::MAX
        }),
{
    let d = if s.len() > 0 && s[0] == '+' {
        s.drop_first()
    } else {
        s
    };
    if s.len() > 0 {
        if s[0] == '+' && s.len() == 1 {
        } else {
            assert(parse_code_spec(s) == digits_value(d, 0));
            if all_digits(d) {
                lemma_digits_value_is_decimal(d);
            } else {
                let j = choose|j: int| 0 <= j < d.len() && !('0' <= #[trigger] d[j] <= '9');
                lemma_digits_value_rejects(d, 0, j);
            }
            if digits_value(d, 0) == Err::<u32, CodeErrorKind>(CodeErrorKind::Empty) {
                lemma_digits_value_never_empty(d, 0);
            }
        }
    }
}

/// Reading digits never fails as empty.
proof fn lemma_digits_value_never_empty(d: Seq<char>, acc: nat)
    ensures
        digits_value(d, acc) != Err::<u32, CodeErrorKind>(CodeErrorKind::Empty),
    decreases d.len(),
{
    if d.len() > 0 && is_digit(d[0]) {
        let v = acc * 10 + (d[0] as u32 - 48);
        if v <= u32::MAX {
            lemma_digits_value_never_empty(d.drop_first(), v as nat);
        }
    }
}

} // verus!
