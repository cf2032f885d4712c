//! Running one test script: the state machine that turns the script's
//! directives and the server's answers into the captured output, deciding
//! on the way whether the script fails.

use vstd::prelude::*;
use crate::mtr_parser::{
    lemma_parse_concatenation, lemma_refusal_is_kept, parse_spec, Directive, DirectiveView,
    ParseErrorView,
};
use crate::runner::{sort_block, sorted_block};
use crate::text::{dec_digits, decimal, push_all, push_str, string_of};

verus! {

// ---------------------------------------------------------------------------
// Running one test script
// ---------------------------------------------------------------------------

/// What the caller does next after handing a directive to a [`TestRun`].
#[derive(Debug)]
pub enum Step {
    /// Execute this statement and hand its outcome to
    /// [`TestRun::statement_outcome`].
    Execute(String),
    /// Nothing to do.
    Continue,
    /// An unimplemented directive, carrying its raw line, was ignored.
    Ignored(String),
}

/// The server's answer to a statement.
#[derive(Debug)]
pub enum Outcome {
    /// The statement succeeded; its rendered result block (empty when it
    /// returned no rows).
    Rendered(String),
    /// The statement failed; `code` is the server's error number, absent for
    /// an error that did not come from the server.
    Failed { code: Option<u32>, message: String },
}

/// The mathematical value of an [`Outcome`].
pub enum OutcomeView {
    Rendered(Seq<char>),
    Failed { code: Option<u32>, message: Seq<char> },
}

impl View for Outcome {
    type V = OutcomeView;

    open spec fn view(&self) -> OutcomeView {
        match self {
            Outcome::Rendered(b) => OutcomeView::Rendered(b@),
            Outcome::Failed { code, message } => OutcomeView::Failed {
                code: *code,
                message: message@,
            },
        }
    }
}

/// Why a test script failed while it ran.
#[derive(Debug)]
pub enum RunError {
    /// A statement expected to fail with one of `expected` succeeded.
    UnexpectedSuccess { expected: Vec<u32>, sql: String },
    /// A statement that was expected to succeed failed.
    UnexpectedError { sql: String, code: Option<u32>, message: String },
    /// A statement expected to fail with one of `expected` failed with an
    /// error that did not come from the server.
    NonServerError { expected: Vec<u32>, sql: String, message: String },
    /// A statement expected to fail with one of `expected` failed with
    /// another code.
    WrongError { expected: Vec<u32>, sql: String, code: u32, message: String },
}

/// The mathematical value of a [`RunError`].
pub enum RunErrorView {
    UnexpectedSuccess { expected: Seq<u32>, sql: Seq<char> },
    UnexpectedError { sql: Seq<char>, code: Option<u32>, message: Seq<char> },
    NonServerError { expected: Seq<u32>, sql: Seq<char>, message: Seq<char> },
    WrongError { expected: Seq<u32>, sql: Seq<char>, code: u32, message: Seq<char> },
}

impl View for RunError {
    type V = RunErrorView;

    open spec fn view(&self) -> RunErrorView {
        match self {
            RunError::UnexpectedSuccess { expected, sql } => RunErrorView::UnexpectedSuccess {
                expected: expected@,
                sql: sql@,
            },
            RunError::UnexpectedError { sql, code, message } => RunErrorView::UnexpectedError {
                sql: sql@,
                code: *code,
                message: message@,
            },
            RunError::NonServerError { expected, sql, message } => RunErrorView::NonServerError {
                expected: expected@,
                sql: sql@,
                message: message@,
            },
            RunError::WrongError { expected, sql, code, message } => RunErrorView::WrongError {
                expected: expected@,
                sql: sql@,
                code: *code,
                message: message@,
            },
        }
    }
}

/// The decimal codes of `cs`, separated by `, `.
pub open spec fn code_list(cs: Seq<u32>) -> Seq<char>
    decreases cs.len(),
{
    if cs.len() == 0 {
        seq![]
    } else if cs.len() == 1 {
        dec_digits(cs[0] as nat)
    } else {
        code_list(cs.drop_last()) + ", "@ + dec_digits(cs.last() as nat)
    }
}

/// A list of codes as `{:?}` prints a `Vec<u32>`: `[1064, 1146]`.
pub open spec fn codes_debug(cs: Seq<u32>) -> Seq<char> {
    "["@ + code_list(cs) + "]"@
}

/// An optional code as `{:?}` prints it: `Some(1064)` or `None`.
pub open spec fn opt_code_debug(c: Option<u32>) -> Seq<char> {
    match c {
        Some(n) => "Some("@ + dec_digits(n as nat) + ")"@,
        None => "None"@,
    }
}

/// The message that reports a [`RunError`].
pub open spec fn run_error_text(e: RunErrorView) -> Seq<char> {
    match e {
        RunErrorView::UnexpectedSuccess { expected, sql } => "expected error in "@ + codes_debug(
            expected,
        ) + " for `"@ + sql + "`, but it succeeded"@,
        RunErrorView::UnexpectedError { sql, code, message } => "unexpected error from `"@ + sql
            + "`: code="@ + opt_code_debug(code) + " msg="@ + message,
        RunErrorView::NonServerError { expected, sql, message } => "expected error in "@
            + codes_debug(expected) + " for `"@ + sql + "`, got non-server error: "@ + message,
        RunErrorView::WrongError { expected, sql, code, message } => "expected error in "@
            + codes_debug(expected) + " for `"@ + sql + "`, got "@ + dec_digits(code as nat) + ": "@
            + message,
    }
}

/// Appends the `{:?}` form of the code list `cs` to `out`.
fn push_codes(out: &mut Vec<char>, cs: &Vec<u32>)
    ensures
        final(out)@ == old(out)@ + codes_debug(cs@),
{
    push_str(out, "[");
    let mut i: usize = 0;
    assert(cs@.take(0) =~= Seq::<u32>::empty());
    while i < cs.len()
        invariant
            i <= cs.len(),
            out@ == old(out)@ + "["@ + code_list(cs@.take(i as int)),
        decreases cs.len() - i,
    {
        let ghost before = out@;
        if i > 0 {
            push_str(out, ", ");
        }
        let num = decimal(cs[i] as u64);
        push_all(out, &num);
        let ghost t = cs@.take(i + 1);
        assert(t.drop_last() =~= cs@.take(i as int));
        assert(t.last() == cs@[i as int]);
        if i == 0 {
            assert(code_list(t) == dec_digits(cs@[0] as nat));
            assert(out@ =~= old(out)@ + "["@ + code_list(t));
        } else {
            assert(out@ =~= old(out)@ + "["@ + code_list(t));
        }
        i = i + 1;
    }
    assert(cs@.take(cs.len() as int) =~= cs@);
    push_str(out, "]");
    assert(out@ =~= old(out)@ + codes_debug(cs@));
}

impl RunError {
    /// The message that reports this error.
    pub fn message(&self) -> (r: String)
        ensures
            r@ == run_error_text(self@),
    {
        let mut out: Vec<char> = Vec::new();
        match self {
            RunError::UnexpectedSuccess { expected, sql } => {
                push_str(&mut out, "expected error in ");
                push_codes(&mut out, expected);
                push_str(&mut out, " for `");
                push_str(&mut out, sql.as_str());
                push_str(&mut out, "`, but it succeeded");
            },
            RunError::UnexpectedError { sql, code, message } => {
                push_str(&mut out, "unexpected error from `");
                push_str(&mut out, sql.as_str());
                push_str(&mut out, "`: code=");
                match code {
                    Some(n) => {
                        push_str(&mut out, "Some(");
                        let num = decimal(*n as u64);
                        push_all(&mut out, &num);
                        push_str(&mut out, ")");
                    },
                    None => {
                        push_str(&mut out, "None");
                    },
                }
                push_str(&mut out, " msg=");
                push_str(&mut out, message.as_str());
            },
            RunError::NonServerError { expected, sql, message } => {
                push_str(&mut out, "expected error in ");
                push_codes(&mut out, expected);
                push_str(&mut out, " for `");
                push_str(&mut out, sql.as_str());
                push_str(&mut out, "`, got non-server error: ");
                push_str(&mut out, message.as_str());
            },
            RunError::WrongError { expected, sql, code, message } => {
                push_str(&mut out, "expected error in ");
                push_codes(&mut out, expected);
                push_str(&mut out, " for `");
                push_str(&mut out, sql.as_str());
                push_str(&mut out, "`, got ");
                let num = decimal(*code as u64);
                push_all(&mut out, &num);
                push_str(&mut out, ": ");
                push_str(&mut out, message.as_str());
            },
        }
        assert(out@ =~= run_error_text(self@));
        string_of(&out)
    }
}

/// The state of a running test script: the output captured so far, and the
/// expectations (`--sorted_result`, `--error`) set for the next statement.
pub struct TestRun {
    actual: Vec<char>,
    pending_sort: bool,
    pending_errors: Vec<u32>,
}

/// The mathematical value of a [`TestRun`].
pub struct TestRunView {
    pub actual: Seq<char>,
    pub pending_sort: bool,
    pub pending_errors: Seq<u32>,
}

impl View for TestRun {
    type V = TestRunView;

    closed spec fn view(&self) -> TestRunView {
        TestRunView {
            actual: self.actual@,
            pending_sort: self.pending_sort,
            pending_errors: self.pending_errors@,
        }
    }
}

/// The state after a directive: a statement echoes itself followed by `;`,
/// `--echo` writes its text, `--sorted_result` and `--error` set the
/// expectations for the next statement, unknown directives change nothing.
pub open spec fn after_directive(st: TestRunView, d: DirectiveView) -> TestRunView {
    match d {
        DirectiveView::Sql(s) => TestRunView { actual: st.actual + s + ";\n"@, ..st },
        DirectiveView::Echo(t) => TestRunView { actual: st.actual + t + "\n"@, ..st },
        DirectiveView::ExpectError(c) => TestRunView { pending_errors: c, ..st },
        DirectiveView::SortedResult => TestRunView { pending_sort: true, ..st },
        DirectiveView::Unknown(_) => st,
    }
}

/// The state after the outcome of statement `sql`, or the error that ends
/// the script. A success is refused when an error was expected, and its
/// block is added (sorted below its header when `--sorted_result` was set).
/// A failure is refused unless it came from the server with one of the
/// expected codes; then `ERROR <code>: <message>` is added. Either way the
/// expectations are cleared.
pub open spec fn after_outcome(st: TestRunView, sql: Seq<char>, outcome: OutcomeView) -> Result<
    TestRunView,
    RunErrorView,
> {
    match outcome {
        OutcomeView::Rendered(block) => if st.pending_errors.len() > 0 {
            Err(RunErrorView::UnexpectedSuccess { expected: st.pending_errors, sql })
        } else {
            Ok(
                TestRunView {
                    actual: st.actual + (if st.pending_sort {
                        sorted_block(block)
                    } else {
                        block
                    }),
                    pending_sort: false,
                    pending_errors: seq![],
                },
            )
        },
        OutcomeView::Failed { code, message } => if st.pending_errors.len() == 0 {
            Err(RunErrorView::UnexpectedError { sql, code, message })
        } else {
            match code {
                None => Err(
                    RunErrorView::NonServerError { expected: st.pending_errors, sql, message },
                ),
                Some(c) => if !st.pending_errors.contains(c) {
                    Err(
                        RunErrorView::WrongError {
                            expected: st.pending_errors,
                            sql,
                            code: c,
                            message,
                        },
                    )
                } else {
                    Ok(
                        TestRunView {
                            actual: st.actual + "ERROR "@ + dec_digits(c as nat) + ": "@ + message
                                + "\n"@,
                            pending_sort: false,
                            pending_errors: seq![],
                        },
                    )
                },
            }
        },
    }
}

/// Whether `v` holds `c`.
fn contains_code(v: &Vec<u32>, c: u32) -> (r: bool)
    ensures
        r == v@.contains(c),
{
    let mut i: usize = 0;
    while i < v.len()
        invariant
            i <= v.len(),
            forall|j: int| 0 <= j < i ==> v@[j] != c,
        decreases v.len() - i,
    {
        if v[i] == c {
            assert(v@[i as int] == c);
            return true;
        }
        i = i + 1;
    }
    false
}

/// A copy of a code list.
fn copy_codes(v: &Vec<u32>) -> (r: Vec<u32>)
    ensures
        r@ == v@,
{
    let mut r: Vec<u32> = Vec::new();
    let mut i: usize = 0;
    while i < v.len()
        invariant
            i <= v.len(),
            r@ == v@.take(i as int),
        decreases v.len() - i,
    {
        r.push(v[i]);
        i = i + 1;
        assert(r@ =~= v@.take(i as int));
    }
    assert(v@.take(v.len() as int) =~= v@);
    r
}

impl TestRun {
    /// A run with nothing captured and no expectation set.
    pub fn new() -> (r: TestRun)
        ensures
            r@.actual == Seq::<char>::empty(),
            !r@.pending_sort,
            r@.pending_errors == Seq::<u32>::empty(),
    {
        TestRun { actual: Vec::new(), pending_sort: false, pending_errors: Vec::new() }
    }

    /// The output captured so far.
    pub fn output(&self) -> (s: String)
        ensures
            s@ == self@.actual,
    {
        string_of(&self.actual)
    }

    /// Takes the next directive of the script (see [`after_directive`]);
    /// a statement is returned to be executed, an unknown directive's line
    /// to be reported.
    pub fn directive(&mut self, d: Directive) -> (step: Step)
        ensures
            final(self)@ == after_directive(old(self)@, d@),
            match d@ {
                DirectiveView::Sql(s) => step matches Step::Execute(x) && x@ == s,
                DirectiveView::Unknown(l) => step matches Step::Ignored(x) && x@ == l,
                _ => step is Continue,
            },
    {
        match d {
            Directive::Sql(sql) => {
                push_str(&mut self.actual, sql.as_str());
                push_str(&mut self.actual, ";\n");
                Step::Execute(sql)
            },
            Directive::Echo(text) => {
                push_str(&mut self.actual, text.as_str());
                push_str(&mut self.actual, "\n");
                Step::Continue
            },
            Directive::SortedResult => {
                self.pending_sort = true;
                Step::Continue
            },
            Directive::ExpectError(codes) => {
                self.pending_errors = codes;
                Step::Continue
            },
            Directive::Unknown(line) => Step::Ignored(line),
        }
    }

    /// Takes the server's answer to statement `sql` (see [`after_outcome`]);
    /// on an error the run is left as it was.
    pub fn statement_outcome(&mut self, sql: &str, outcome: Outcome) -> (r: Result<(), RunError>)
        ensures
            match r {
                Ok(()) => after_outcome(old(self)@, sql@, outcome@) == Ok::<
                    TestRunView,
                    RunErrorView,
                >(final(self)@),
                Err(e) => after_outcome(old(self)@, sql@, outcome@) == Err::<
                    TestRunView,
                    RunErrorView,
                >(e@) && final(self)@ == old(self)@,
            },
    {
        match outcome {
            Outcome::Rendered(block) => {
                if self.pending_errors.len() > 0 {
                    return Err(
                        RunError::UnexpectedSuccess {
                            expected: copy_codes(&self.pending_errors),
                            sql: String::from_str(sql),
                        },
                    );
                }
                if self.pending_sort {
                    let sorted = sort_block(block.as_str());
                    push_str(&mut self.actual, sorted.as_str());
                } else {
                    push_str(&mut self.actual, block.as_str());
                }
            },
            Outcome::Failed { code, message } => {
                if self.pending_errors.len() == 0 {
                    return Err(
                        RunError::UnexpectedError { sql: String::from_str(sql), code, message },
                    );
                }
                match code {
                    None => {
                        return Err(
                            RunError::NonServerError {
                                expected: copy_codes(&self.pending_errors),
                                sql: String::from_str(sql),
                                message,
                            },
                        );
                    },
                    Some(c) => {
                        if !contains_code(&self.pending_errors, c) {
                            return Err(
                                RunError::WrongError {
                                    expected: copy_codes(&self.pending_errors),
                                    sql: String::from_str(sql),
                                    code: c,
                                    message,
                                },
                            );
                        }
                        push_str(&mut self.actual, "ERROR ");
                        let n = decimal(c as u64);
                        push_all(&mut self.actual, &n);
                        push_str(&mut self.actual, ": ");
                        push_str(&mut self.actual, message.as_str());
                        push_str(&mut self.actual, "\n");
                    },
                }
            },
        }
        self.pending_sort = false;
        self.pending_errors = Vec::new();
        Ok(())
    }
}

// ---------------------------------------------------------------------------
// Laws of a run
// ---------------------------------------------------------------------------

/// The captured output only grows: no directive and no accepted outcome
/// takes back what was written.
pub proof fn lemma_output_only_grows(st: TestRunView, d: DirectiveView, sql: Seq<char>, o: OutcomeView)
    ensures
        after_directive(st, d).actual.take(st.actual.len() as int) == st.actual,
        after_outcome(st, sql, o) matches Ok(next) ==> next.actual.take(st.actual.len() as int)
            == st.actual,
{
    assert(st.actual.take(st.actual.len() as int) =~= st.actual);
    match d {
        DirectiveView::Sql(s) => {
            assert((st.actual + s + ";\n"@).take(st.actual.len() as int) =~= st.actual);
        },
        DirectiveView::Echo(t) => {
            assert((st.actual + t + "\n"@).take(st.actual.len() as int) =~= st.actual);
        },
        _ => {},
    }
    match after_outcome(st, sql, o) {
        Ok(next) => {
            assert(next.actual.take(st.actual.len() as int) =~= st.actual);
        },
        Err(_) => {},
    }
}

/// `--sorted_result` and `--error` apply to the next statement only: once a
/// statement's outcome is accepted, no expectation is left.
pub proof fn lemma_expectations_apply_once(st: TestRunView, sql: Seq<char>, o: OutcomeView)
    ensures
        after_outcome(st, sql, o) matches Ok(next) ==> !next.pending_sort
            && next.pending_errors.len() == 0,
{
}

/// A statement under `--error` is accepted exactly when it fails on the
/// server with one of the listed codes; any other statement is accepted
/// exactly when it succeeds.
pub proof fn lemma_outcome_accepted_iff_expected(st: TestRunView, sql: Seq<char>, o: OutcomeView)
    ensures
        after_outcome(st, sql, o) is Ok <==> (if st.pending_errors.len() == 0 {
            o is Rendered
        } else {
            o matches OutcomeView::Failed { code: Some(c), .. } && st.pending_errors.contains(c)
        }),
{
}

/// A run of a whole directive list from state `st`, where `server` answers
/// each statement given every statement sent so far (the last one being the
/// statement itself): the final state or the error that ended the run, and
/// the statements sent.
pub open spec fn run_directives(
    st: TestRunView,
    ds: Seq<DirectiveView>,
    sent: Seq<Seq<char>>,
    server: spec_fn(Seq<Seq<char>>) -> OutcomeView,
) -> (Result<TestRunView, RunErrorView>, Seq<Seq<char>>)
    decreases ds.len(),
{
    if ds.len() == 0 {
        (Ok(st), sent)
    } else {
        let next = after_directive(st, ds[0]);
        match ds[0] {
            DirectiveView::Sql(sql) => {
                let sent2 = sent.push(sql);
                match after_outcome(next, sql, server(sent2)) {
                    Ok(st2) => run_directives(st2, ds.drop_first(), sent2, server),
                    Err(e) => (Err(e), sent2),
                }
            },
            _ => run_directives(next, ds.drop_first(), sent, server),
        }
    }
}

/// Running two lists one after the other is running their concatenation.
proof fn lemma_run_split(
    st: TestRunView,
    x: Seq<DirectiveView>,
    z: Seq<DirectiveView>,
    sent: Seq<Seq<char>>,
    server: spec_fn(Seq<Seq<char>>) -> OutcomeView,
)
    ensures
        run_directives(st, x + z, sent, server) == match run_directives(st, x, sent, server) {
            (Ok(st2), sent2) => run_directives(st2, z, sent2, server),
            (Err(e), sent2) => (Err(e), sent2),
        },
    decreases x.len(),
{
    if x.len() == 0 {
        assert(x + z =~= z);
    } else {
        assert((x + z)[0] == x[0]);
        assert((x + z).drop_first() =~= x.drop_first() + z);
        let next = after_directive(st, x[0]);
        match x[0] {
            DirectiveView::Sql(sql) => {
                let sent2 = sent.push(sql);
                match after_outcome(next, sql, server(sent2)) {
                    Ok(st2) => {
                        lemma_run_split(st2, x.drop_first(), z, sent2, server);
                    },
                    Err(_) => {},
                }
            },
            _ => {
                lemma_run_split(next, x.drop_first(), z, sent, server);
            },
        }
    }
}

/// Unknown directives leave a run as it was.
proof fn lemma_run_skips_unknown(
    st: TestRunView,
    us: Seq<DirectiveView>,
    y: Seq<DirectiveView>,
    sent: Seq<Seq<char>>,
    server: spec_fn(Seq<Seq<char>>) -> OutcomeView,
)
    requires
        forall|i: int| 0 <= i < us.len() ==> #[trigger] us[i] is Unknown,
    ensures
        run_directives(st, us + y, sent, server) == run_directives(st, y, sent, server),
    decreases us.len(),
{
    if us.len() == 0 {
        assert(us + y =~= y);
    } else {
        assert((us + y)[0] == us[0]);
        assert(us[0] is Unknown);
        assert((us + y).drop_first() =~= us.drop_first() + y);
        assert forall|i: int| 0 <= i < us.drop_first().len() implies #[trigger] us.drop_first()[i] is Unknown by {
            assert(us.drop_first()[i] == us[i + 1]);
        }
        lemma_run_skips_unknown(st, us.drop_first(), y, sent, server);
    }
}

/// Inserting unknown directives anywhere in a directive list changes
/// neither the outcome of the run nor the statements it sends.
pub proof fn lemma_unknown_directives_change_nothing(
    st: TestRunView,
    x: Seq<DirectiveView>,
    us: Seq<DirectiveView>,
    y: Seq<DirectiveView>,
    sent: Seq<Seq<char>>,
    server: spec_fn(Seq<Seq<char>>) -> OutcomeView,
)
    requires
        forall|i: int| 0 <= i < us.len() ==> #[trigger] us[i] is Unknown,
    ensures
        run_directives(st, x + us + y, sent, server) == run_directives(st, x + y, sent, server),
{
    assert(x + us + y =~= x + (us + y));
    lemma_run_split(st, x, us + y, sent, server);
    lemma_run_split(st, x, y, sent, server);
    match run_directives(st, x, sent, server) {
        (Ok(st2), sent2) => {
            lemma_run_skips_unknown(st2, us, y, sent2, server);
        },
        (Err(_), _) => {},
    }
}

/// Lines of unknown directives inserted into a script where no statement is
/// open change nothing: with `a` a script that ends with a line ending and
/// leaves no statement open, and `u` lines that parse to unknown directives
/// only, `a + u + b` parses exactly when `a + b` does (both fail, and nothing
/// is sent, when `a` is refused), and when they parse both scripts run to the
/// same outcome and send the same statements.
pub proof fn lemma_unknown_directive_lines_change_nothing(
    a: Seq<char>,
    u: Seq<char>,
    b: Seq<char>,
    st: TestRunView,
    sent: Seq<Seq<char>>,
    server: spec_fn(Seq<Seq<char>>) -> OutcomeView,
)
    requires
        a.len() == 0 || a.last() == '\n',
        !(parse_spec(a) matches Err(ParseErrorView::UnterminatedSql(_))),
        u.len() > 0 && u.last() == '\n',
        parse_spec(u) matches Ok(du) && forall|i: int| 0 <= i < du.len() ==> #[trigger] du[i] is Unknown,
    ensures
        (parse_spec(a + u + b) is Ok) == (parse_spec(a + b) is Ok),
        match (parse_spec(a + u + b), parse_spec(a + b)) {
            (Ok(d2), Ok(d1)) => run_directives(st, d2, sent, server) == run_directives(
                st,
                d1,
                sent,
                server,
            ),
            _ => true,
        },
{
    let ub = u + b;
    assert(a + u + b =~= a + ub);
    if parse_spec(a) is Err {
        lemma_refusal_is_kept(a, ub);
        lemma_refusal_is_kept(a, b);
    } else {
        lemma_parse_concatenation(u, b);
        lemma_parse_concatenation(a, ub);
        lemma_parse_concatenation(a, b);
        match (parse_spec(a), parse_spec(u), parse_spec(b)) {
            (Ok(da), Ok(du), Ok(db)) => {
                lemma_unknown_directives_change_nothing(st, da, du, db, sent, server);
                assert(da + (du + db) =~= da + du + db);
            },
            _ => {},
        }
    }
}

} // verus!
