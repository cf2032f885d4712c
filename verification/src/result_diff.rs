//! Comparison of the captured output of a test against its `.result` file.
//!
//! Line-level equality: on a mismatch the report lists the differing lines,
//! starting at the first divergence, and stops once it holds more than
//! twelve lines.

use vstd::prelude::*;
use crate::text::{
    chars_eq, chars_of, dec_digits, decimal, digit_char, lemma_index_of, lemma_lines_concat,
    line_count, lines, push_all, push_str, split_lines, string_of, texts,
};

verus! {

/// The text that `{:?}` prints for a string: the string quoted, with
/// quotes, backslashes and unprintable characters escaped.
pub uninterp spec fn debug_quoted(s: Seq<char>) -> Seq<char>;

/// `format!("{:?}", s)` for a string slice. The result is named
/// [`debug_quoted`] of the slice's characters; beyond that the contract
/// claims only that it holds no raw line feed (`{:?}` writes one as `\n`).
#[verifier::external_body]
pub(crate) fn debug_str(s: &str) -> (r: String)
    ensures
        r@ == debug_quoted(s@),
        !r@.contains('\n'),
{
    format!("{:?}", s)
}

/// Line `i` of `ls`, if there is one.
pub open spec fn line_at(ls: Seq<Seq<char>>, i: int) -> Option<Seq<char>> {
    if 0 <= i < ls.len() {
        Some(ls[i])
    } else {
        None
    }
}

/// The first line of every mismatch report.
pub open spec fn report_header() -> Seq<char> {
    "result mismatch\n"@
}

/// The `{:?}` text of a line, where there is one.
pub open spec fn quoted(x: Option<Seq<char>>) -> Option<Seq<char>> {
    match x {
        Some(t) => Some(debug_quoted(t)),
        None => None,
    }
}

/// The characters of an optional string slice.
pub open spec fn opt_text(x: Option<&str>) -> Option<Seq<char>> {
    match x {
        Some(t) => Some(t@),
        None => None,
    }
}

/// The report entry for the line numbered `n` (counting from 1), given the
/// printed forms `a` of the actual line and `e` of the expected line, each
/// `None` where that output has no such line.
pub open spec fn entry_text(n: nat, a: Option<Seq<char>>, e: Option<Seq<char>>) -> Seq<char> {
    let num = dec_digits(n);
    match (a, e) {
        (Some(a), Some(e)) => "line "@ + num + ": expected "@ + e + ", got "@ + a + "\n"@,
        (None, Some(e)) => "line "@ + num + ": expected "@ + e + ", but actual ended\n"@,
        (Some(a), None) => "line "@ + num + ": extra actual line "@ + a + " (expected ended)\n"@,
        (None, None) => seq![],
    }
}

/// The report entry for line index `i`, where the actual output has `a` and
/// the expected output has `e`.
pub open spec fn mismatch_entry(i: nat, a: Option<Seq<char>>, e: Option<Seq<char>>) -> Seq<char> {
    entry_text(i + 1, quoted(a), quoted(e))
}

/// The number of lines that the comparison walks.
pub open spec fn max_len(al: Seq<Seq<char>>, el: Seq<Seq<char>>) -> int {
    if al.len() >= el.len() {
        al.len() as int
    } else {
        el.len() as int
    }
}

/// The report built from line `i` on, given the report `acc` so far: each
/// differing line adds its entry; once the report holds more than twelve
/// lines a truncation note ends it.
pub open spec fn report_from(al: Seq<Seq<char>>, el: Seq<Seq<char>>, i: int, acc: Seq<char>) -> Seq<
    char,
>
    decreases max_len(al, el) - i,
{
    if i < 0 || i >= max_len(al, el) {
        acc
    } else if line_at(al, i) == line_at(el, i) {
        report_from(al, el, i + 1, acc)
    } else {
        let acc2 = acc + mismatch_entry(i as nat, line_at(al, i), line_at(el, i));
        if lines(acc2).len() > 12 {
            acc2 + "(more lines truncated)\n"@
        } else {
            report_from(al, el, i + 1, acc2)
        }
    }
}

/// The report for an actual output that differs from the expected one.
pub open spec fn mismatch_report(actual: Seq<char>, expected: Seq<char>) -> Seq<char> {
    report_from(lines(actual), lines(expected), 0, report_header())
}

/// What [`compare`] gives.
pub open spec fn compare_spec(actual: Seq<char>, expected: Seq<char>) -> Result<(), Seq<char>> {
    if actual == expected {
        Ok(())
    } else {
        Err(mismatch_report(actual, expected))
    }
}

/// The number of positions before `i` at which the two line lists differ.
pub open spec fn diff_count(al: Seq<Seq<char>>, el: Seq<Seq<char>>, i: int) -> nat
    decreases i,
{
    if i <= 0 {
        0
    } else {
        diff_count(al, el, i - 1) + if line_at(al, i - 1) != line_at(el, i - 1) {
            1nat
        } else {
            0nat
        }
    }
}

/// The number of lines (as `str::lines` counts them) on which the actual
/// and the expected output differ.
pub open spec fn differing_lines(actual: Seq<char>, expected: Seq<char>) -> nat {
    let al = lines(actual);
    let el = lines(expected);
    diff_count(al, el, max_len(al, el))
}

/// How many lines a mismatch report has when `d` lines differ: the header
/// and one line per difference, and after the twelfth difference the note
/// that the rest was cut.
pub open spec fn report_lines(d: nat) -> nat {
    if d >= 12 {
        14
    } else {
        d + 1
    }
}

/// Text without a line feed.
pub open spec fn no_nl(s: Seq<char>) -> bool {
    !s.contains('\n')
}

/// Text that is one line ended by a line feed.
pub open spec fn one_line(s: Seq<char>) -> bool {
    s.len() > 0 && s.last() == '\n' && no_nl(s.drop_last())
}

proof fn lemma_no_nl_add(a: Seq<char>, b: Seq<char>)
    requires
        no_nl(a),
        no_nl(b),
    ensures
        no_nl(a + b),
{
    if (a + b).contains('\n') {
        let j = choose|j: int| 0 <= j < (a + b).len() && (a + b)[j] == '\n';
        if j < a.len() {
            assert(a[j] == '\n');
        } else {
            assert(b[j - a.len()] == '\n');
        }
    }
}

proof fn lemma_one_line_after(a: Seq<char>, b: Seq<char>)
    requires
        no_nl(a),
        one_line(b),
    ensures
        one_line(a + b),
{
    assert((a + b).drop_last() =~= a + b.drop_last());
    lemma_no_nl_add(a, b.drop_last());
}

proof fn lemma_dec_digits_no_nl(n: nat)
    ensures
        no_nl(dec_digits(n)),
    decreases n,
{
    if n >= 10 {
        lemma_dec_digits_no_nl(n / 10);
        let d = dec_digits(n / 10);
        assert(no_nl(seq![digit_char(n % 10)]));
        assert(d.push(digit_char(n % 10)) =~= d + seq![digit_char(n % 10)]);
        lemma_no_nl_add(d, seq![digit_char(n % 10)]);
    } else {
        assert(no_nl(seq![digit_char(n)]));
    }
}

/// Appending one line to text that ends with a line feed adds one line.
proof fn lemma_append_line(prev: Seq<char>, x: Seq<char>)
    requires
        prev.len() > 0,
        prev.last() == '\n',
        one_line(x),
    ensures
        lines(prev + x).len() == lines(prev).len() + 1,
        (prev + x).last() == '\n',
{
    lemma_lines_concat(prev, x);
    let k = x.len() - 1;
    assert forall|j: int| 0 <= j < k implies #[trigger] x[j] != '\n' by {
        assert(x.drop_last()[j] == x[j]);
    }
    lemma_index_of(x, '\n', k);
    assert(x.skip(k + 1) =~= Seq::<char>::empty());
    assert(lines(Seq::<char>::empty()) == Seq::<Seq<char>>::empty());
    assert(lines(x).len() == 1);
}

/// An entry for a line that at least one output has is one line, when the
/// printed forms hold no line feed.
proof fn lemma_entry_is_one_line(n: nat, a: Option<Seq<char>>, e: Option<Seq<char>>)
    requires
        a is Some || e is Some,
        a matches Some(x) ==> no_nl(x),
        e matches Some(x) ==> no_nl(x),
    ensures
        one_line(entry_text(n, a, e)),
{
    reveal_strlit("line ");
    reveal_strlit(": expected ");
    reveal_strlit(", got ");
    reveal_strlit("\n");
    reveal_strlit(", but actual ended\n");
    reveal_strlit(", but actual ended");
    reveal_strlit(": extra actual line ");
    reveal_strlit(" (expected ended)\n");
    reveal_strlit(" (expected ended)");
    lemma_dec_digits_no_nl(n);
    let p1 = "line "@ + dec_digits(n);
    lemma_no_nl_add("line "@, dec_digits(n));
    match (a, e) {
        (Some(a), Some(e)) => {
            lemma_no_nl_add(p1, ": expected "@);
            lemma_no_nl_add(p1 + ": expected "@, e);
            lemma_no_nl_add(p1 + ": expected "@ + e, ", got "@);
            lemma_no_nl_add(p1 + ": expected "@ + e + ", got "@, a);
            lemma_one_line_after(p1 + ": expected "@ + e + ", got "@ + a, "\n"@);
        },
        (None, Some(e)) => {
            lemma_no_nl_add(p1, ": expected "@);
            lemma_no_nl_add(p1 + ": expected "@, e);
            assert(", but actual ended\n"@.drop_last() =~= ", but actual ended"@);
            lemma_one_line_after(p1 + ": expected "@ + e, ", but actual ended\n"@);
        },
        (Some(a), None) => {
            lemma_no_nl_add(p1, ": extra actual line "@);
            lemma_no_nl_add(p1 + ": extra actual line "@, a);
            assert(" (expected ended)\n"@.drop_last() =~= " (expected ended)"@);
            lemma_one_line_after(p1 + ": extra actual line "@ + a, " (expected ended)\n"@);
        },
        (None, None) => {},
    }
}

/// The count of differing positions does not shrink as more are taken in.
proof fn lemma_diff_count_grows(al: Seq<Seq<char>>, el: Seq<Seq<char>>, i: int, j: int)
    requires
        0 <= i <= j,
    ensures
        diff_count(al, el, i) <= diff_count(al, el, j),
    decreases j - i,
{
    if i < j {
        lemma_diff_count_grows(al, el, i, j - 1);
    }
}

/// The report entry for the line numbered `line_no` (counting from 1), given
/// the `{:?}` texts of the actual and of the expected line, `None` where that
/// output has no such line.
pub fn report_entry(line_no: usize, actual_dbg: Option<&str>, expected_dbg: Option<&str>) -> (r:
    String)
    ensures
        r@ == entry_text(line_no as nat, opt_text(actual_dbg), opt_text(expected_dbg)),
{
    let num = decimal(line_no as u64);
    let mut out: Vec<char> = Vec::new();
    match (actual_dbg, expected_dbg) {
        (Some(a), Some(e)) => {
            push_str(&mut out, "line ");
            push_all(&mut out, &num);
            push_str(&mut out, ": expected ");
            push_str(&mut out, e);
            push_str(&mut out, ", got ");
            push_str(&mut out, a);
            push_str(&mut out, "\n");
        },
        (None, Some(e)) => {
            push_str(&mut out, "line ");
            push_all(&mut out, &num);
            push_str(&mut out, ": expected ");
            push_str(&mut out, e);
            push_str(&mut out, ", but actual ended\n");
        },
        (Some(a), None) => {
            push_str(&mut out, "line ");
            push_all(&mut out, &num);
            push_str(&mut out, ": extra actual line ");
            push_str(&mut out, a);
            push_str(&mut out, " (expected ended)\n");
        },
        (None, None) => {},
    }
    proof {
        assert(Seq::<char>::empty() + "line "@ =~= "line "@);
    }
    string_of(&out)
}

/// Compares captured output with the expected output. `Ok` when they are
/// equal; otherwise the error holds a report that names the differing lines
/// from the first divergence on, one line each, and is cut after the
/// twelfth: the header, then one line per differing line, then (after the
/// twelfth) a note that the rest was cut.
pub fn compare(actual: &str, expected: &str) -> (r: Result<(), String>)
    ensures
        match r {
            Ok(()) => compare_spec(actual@, expected@) == Ok::<(), Seq<char>>(()),
            Err(report) => compare_spec(actual@, expected@) == Err::<(), Seq<char>>(report@)
                && lines(report@).len() == report_lines(differing_lines(actual@, expected@)),
        },
{
    let a = chars_of(actual);
    let e = chars_of(expected);
    if chars_eq(&a, &e) {
        return Ok(());
    }
    let al = split_lines(&a);
    let el = split_lines(&e);
    let ghost als = texts(al@);
    let ghost els = texts(el@);
    let max = if al.len() >= el.len() {
        al.len()
    } else {
        el.len()
    };
    let mut report = chars_of("result mismatch\n");
    proof {
        reveal_strlit("result mismatch\n");
        lemma_append_line(seq!['\n'], report@);
        lemma_lines_concat(seq!['\n'], report@);
        assert(lines(seq!['\n']).len() == 1) by {
            lemma_index_of(seq!['\n'], '\n', 0);
            assert(seq!['\n'].skip(1) =~= Seq::<char>::empty());
            assert(lines(Seq::<char>::empty()) == Seq::<Seq<char>>::empty());
        }
    }
    let mut i: usize = 0;
    loop
        invariant_except_break
            i <= max,
            max == max_len(als, els),
            als == texts(al@),
            els == texts(el@),
            als == lines(actual@),
            els == lines(expected@),
            mismatch_report(actual@, expected@) == report_from(als, els, i as int, report@),
            report@.len() > 0,
            report@.last() == '\n',
            lines(report@).len() == 1 + diff_count(als, els, i as int),
            lines(report@).len() <= 12,
        ensures
            mismatch_report(actual@, expected@) == report@,
            lines(report@).len() == report_lines(differing_lines(actual@, expected@)),
        decreases max - i,
    {
        if i >= max {
            break ;
        }
        let same = i < al.len() && i < el.len() && chars_eq(&al[i], &el[i]);
        proof {
            if i < al.len() && i < el.len() {
                assert(als[i as int] == al@[i as int]@);
                assert(els[i as int] == el@[i as int]@);
            }
        }
        if same {
            i = i + 1;
        } else {
            let ghost prev = report@;
            let ghost la = line_at(als, i as int);
            let ghost le = line_at(els, i as int);
            let entry = if i < al.len() && i < el.len() {
                let a_dbg = debug_str(string_of(&al[i]).as_str());
                let e_dbg = debug_str(string_of(&el[i]).as_str());
                proof {
                    assert(als[i as int] == al@[i as int]@);
                    assert(els[i as int] == el@[i as int]@);
                    lemma_entry_is_one_line((i + 1) as nat, Some(a_dbg@), Some(e_dbg@));
                }
                report_entry(i + 1, Some(a_dbg.as_str()), Some(e_dbg.as_str()))
            } else if i < el.len() {
                let e_dbg = debug_str(string_of(&el[i]).as_str());
                proof {
                    assert(els[i as int] == el@[i as int]@);
                    lemma_entry_is_one_line((i + 1) as nat, None, Some(e_dbg@));
                }
                report_entry(i + 1, None, Some(e_dbg.as_str()))
            } else {
                let a_dbg = debug_str(string_of(&al[i]).as_str());
                proof {
                    assert(als[i as int] == al@[i as int]@);
                    lemma_entry_is_one_line((i + 1) as nat, Some(a_dbg@), None);
                }
                report_entry(i + 1, Some(a_dbg.as_str()), None)
            };
            assert(entry@ == mismatch_entry(i as nat, la, le));
            push_str(&mut report, entry.as_str());
            proof {
                lemma_append_line(prev, entry@);
            }
            if line_count(&report) > 12 {
                let ghost before = report@;
                push_str(&mut report, "(more lines truncated)\n");
                proof {
                    reveal_strlit("(more lines truncated)\n");
                    lemma_append_line(before, "(more lines truncated)\n"@);
                    lemma_diff_count_grows(als, els, i + 1, max as int);
                }
                break ;
            }
            i = i + 1;
        }
    }
    Err(string_of(&report))
}

// ---------------------------------------------------------------------------
// Laws
// ---------------------------------------------------------------------------

/// The report only grows: what was written before line `i` stays its prefix.
proof fn lemma_report_extends(al: Seq<Seq<char>>, el: Seq<Seq<char>>, i: int, acc: Seq<char>)
    ensures
        acc.len() <= report_from(al, el, i, acc).len(),
        report_from(al, el, i, acc).take(acc.len() as int) == acc,
    decreases max_len(al, el) - i,
{
    if i < 0 || i >= max_len(al, el) {
        assert(acc.take(acc.len() as int) =~= acc);
    } else if line_at(al, i) == line_at(el, i) {
        lemma_report_extends(al, el, i + 1, acc);
    } else {
        let acc2 = acc + mismatch_entry(i as nat, line_at(al, i), line_at(el, i));
        if lines(acc2).len() > 12 {
            assert((acc2 + "(more lines truncated)\n"@).take(acc.len() as int) =~= acc);
        } else {
            lemma_report_extends(al, el, i + 1, acc2);
            let r = report_from(al, el, i + 1, acc2);
            assert(r.take(acc.len() as int) =~= r.take(acc2.len() as int).take(acc.len() as int));
            assert(acc2.take(acc.len() as int) =~= acc);
        }
    }
}

/// Lines on which both outputs agree add nothing to the report.
proof fn lemma_report_skips_agreeing(
    al: Seq<Seq<char>>,
    el: Seq<Seq<char>>,
    i: int,
    k: int,
    acc: Seq<char>,
)
    requires
        0 <= i <= k,
        forall|j: int| i <= j < k ==> line_at(al, j) == line_at(el, j),
    ensures
        report_from(al, el, i, acc) == report_from(al, el, k, acc),
    decreases k - i,
{
    if i < k {
        if i < max_len(al, el) {
            lemma_report_skips_agreeing(al, el, i + 1, k, acc);
        } else {
            assert(line_at(al, k) == line_at(el, k));
        }
    }
}

/// Identical outputs are accepted and different ones are refused.
pub proof fn lemma_compare_accepts_exactly_equal(actual: Seq<char>, expected: Seq<char>)
    ensures
        compare_spec(actual, expected) is Ok <==> actual == expected,
{
}

/// A refused output is reported at its first divergence: after the header,
/// the report starts with the entry for the first line (counted by
/// `str::lines`) on which the two outputs differ.
pub proof fn lemma_report_points_at_first_difference(
    actual: Seq<char>,
    expected: Seq<char>,
    k: int,
)
    requires
        0 <= k,
        line_at(lines(actual), k) != line_at(lines(expected), k),
        forall|j: int| 0 <= j < k ==> line_at(lines(actual), j) == line_at(lines(expected), j),
    ensures
        ({
            let prefix = report_header() + mismatch_entry(
                k as nat,
                line_at(lines(actual), k),
                line_at(lines(expected), k),
            );
            mismatch_report(actual, expected).take(prefix.len() as int) == prefix
        }),
{
    let al = lines(actual);
    let el = lines(expected);
    let hdr = report_header();
    lemma_report_skips_agreeing(al, el, 0, k, hdr);
    let acc2 = hdr + mismatch_entry(k as nat, line_at(al, k), line_at(el, k));
    assert(k < max_len(al, el));
    if lines(acc2).len() > 12 {
        assert((acc2 + "(more lines truncated)\n"@).take(acc2.len() as int) =~= acc2);
    } else {
        lemma_report_extends(al, el, k + 1, acc2);
    }
}

} // verus!
