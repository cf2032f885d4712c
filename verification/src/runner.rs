//! How the runner renders results: which statements return rows, how cell
//! values and rows are written, and how a result block is sorted.
//!
//! Result format:
//!
//! ```text
//! <statement-echo>;
//! col1\tcol2\t...        (header row, only if the statement produced rows)
//! v1\tv2\t...            (one tab-separated row per result row)
//! ```
//!
//! Statements that produce no rows just emit the echo line. `--echo` emits
//! its argument verbatim. Errors emit `ERROR <code>: <msg>`.

use vstd::prelude::*;
use vstd::relations::sorted_by;
use vstd::seq_lib::lemma_sorted_unique;
use vstd::utf8::{decode_utf8, valid_utf8};
use crate::order::{lemma_text_order_total, sort_texts, text_order};
use crate::text::{
    chars_eq_str, chars_of, dec_digits, digit_char, index_of, lemma_index_of_bounds, lemma_lines_concat,
    lemma_trim_end_keeps_text,
    lemma_lines_hold_no_newline, lemma_lines_of_one_line, lemma_lines_of_terminated, plain_line,
    strip_cr, trim_end, decimal, decimal_padded, is_whitespace, is_ws, joined, lines,
    push_all, push_joined, push_str, slice_chars, split_lines, string_of, strs, terminated, texts,
    trim, trim_chars, trim_start, trim_start_chars, zero_pad,
};

verus! {

// ---------------------------------------------------------------------------
// Which statements return rows
// ---------------------------------------------------------------------------

/// Whether `s` starts with `--`.
pub open spec fn starts_with_dashes(s: Seq<char>) -> bool {
    s.len() >= 2 && s[0] == '-' && s[1] == '-'
}

/// The first of `ls` whose trimmed text does not start with `--`, or the
/// empty text.
pub open spec fn first_statement_line(ls: Seq<Seq<char>>) -> Seq<char>
    decreases ls.len(),
{
    if ls.len() == 0 {
        seq![]
    } else if starts_with_dashes(trim(ls[0])) {
        first_statement_line(ls.drop_first())
    } else {
        ls[0]
    }
}

/// A character that ends the leading word of a statement.
pub open spec fn ends_word(c: char) -> bool {
    is_ws(c) || c == '('
}

/// Index of the first character of `s` that ends a word, or `s.len()`.
pub open spec fn word_end(s: Seq<char>) -> int
    decreases s.len(),
{
    if s.len() == 0 {
        0
    } else if ends_word(s[0]) {
        0
    } else {
        1 + word_end(s.drop_first())
    }
}

/// `char::to_ascii_uppercase`.
pub open spec fn ascii_upper(c: char) -> char {
    if 'a' <= c <= 'z' {
        (((c as u32) - 32) as u8) as char
    } else {
        c
    }
}

/// `str::to_ascii_uppercase`.
pub open spec fn ascii_upper_text(s: Seq<char>) -> Seq<char> {
    s.map_values(|c: char| ascii_upper(c))
}

/// The leading keyword of a statement, upper-cased: the first word of its
/// first line that is not a `--` comment, after leading whitespace.
pub open spec fn leading_keyword(sql: Seq<char>) -> Seq<char> {
    let head = first_statement_line(lines(trim_start(sql)));
    ascii_upper_text(head.take(word_end(head)))
}

/// The keywords of statements that return rows.
pub open spec fn is_row_keyword(w: Seq<char>) -> bool {
    ||| w == "SELECT"@
    ||| w == "SHOW"@
    ||| w == "EXPLAIN"@
    ||| w == "DESCRIBE"@
    ||| w == "DESC"@
    ||| w == "WITH"@
    ||| w == "VALUES"@
    ||| w == "TABLE"@
}

/// The leading keywords of the statements that return rows.
pub open spec fn row_keywords() -> Seq<Seq<char>> {
    seq!["SELECT"@, "SHOW"@, "EXPLAIN"@, "DESCRIBE"@, "DESC"@, "WITH"@, "VALUES"@, "TABLE"@]
}

/// A non-empty word of upper-case ASCII letters.
pub open spec fn upper_word(w: Seq<char>) -> bool {
    w.len() > 0 && forall|j: int| 0 <= j < w.len() ==> 'A' <= #[trigger] w[j] <= 'Z'
}

/// `word_end` is the first position that ends a word.
proof fn lemma_word_end_at(x: Seq<char>, m: int)
    requires
        0 <= m <= x.len(),
        forall|j: int| 0 <= j < m ==> !ends_word(#[trigger] x[j]),
        m == x.len() || ends_word(x[m]),
    ensures
        word_end(x) == m,
    decreases m,
{
    if m > 0 {
        assert forall|j: int| 0 <= j < m - 1 implies !ends_word(#[trigger] x.drop_first()[j]) by {
            assert(x.drop_first()[j] == x[j + 1]);
        }
        if m < x.len() {
            assert(x.drop_first()[m - 1] == x[m]);
        }
        lemma_word_end_at(x.drop_first(), m - 1);
    }
}

/// A statement that starts with an upper-case word followed by a blank has
/// that word as its leading keyword, whatever follows.
proof fn lemma_leading_keyword_of_word(w: Seq<char>, rest: Seq<char>)
    requires
        upper_word(w),
    ensures
        leading_keyword(w + " "@ + rest) == w,
{
    reveal_strlit(" ");
    let s = w + " "@ + rest;
    let n = w.len() as int;
    assert forall|j: int| 0 <= j <= n implies #[trigger] s[j] != '\n' && !is_ws(s[j]) == (j < n)
        && (j < n ==> !ends_word(s[j])) && (j == n ==> ends_word(s[j])) && s[j] != '\r' by {
        if j < n {
            assert(s[j] == w[j]);
            assert('A' <= w[j] <= 'Z');
        } else {
            assert(s[j] == ' ');
        }
    }
    assert(trim_start(s) == s);
    let k = index_of(s, '\n');
    lemma_index_of_bounds(s, '\n');
    assert(k > n);
    let ls = lines(s);
    let head = ls[0];
    if k >= s.len() {
        assert(ls == seq![s]);
    } else {
        assert(ls == seq![strip_cr(s.take(k))] + lines(s.skip(k + 1)));
        assert(s.take(k)[n] == s[n]);
    }
    assert(head.len() > n);
    assert forall|j: int| 0 <= j <= n implies #[trigger] head[j] == s[j] by {
        if k < s.len() {
            assert(s.take(k)[j] == s[j]);
        }
    }
    lemma_trim_end_keeps_text(head, 0);
    let te = trim_end(head);
    assert(te[0] == w[0]);
    assert(trim_start(te) == te);
    assert(!starts_with_dashes(trim(head)));
    assert(first_statement_line(ls) == head);
    lemma_word_end_at(head, n);
    assert(head.take(n) =~= w);
    assert(ascii_upper_text(w) =~= w) by {
        assert forall|j: int| 0 <= j < w.len() implies #[trigger] ascii_upper(w[j]) == w[j] by {
            assert('A' <= w[j] <= 'Z');
        }
    }
}

/// Each of the keywords `SELECT`, `SHOW`, `EXPLAIN`, `DESCRIBE`, `DESC`,
/// `WITH`, `VALUES` and `TABLE`, followed by a blank and anything at all,
/// makes a statement that returns rows (and, by
/// [`lemma_ascii_case_ignored`], so does the same in any letter case).
pub proof fn lemma_row_keywords_return_rows(k: int, rest: Seq<char>)
    requires
        0 <= k < 8,
    ensures
        is_row_keyword(leading_keyword(row_keywords()[k] + " "@ + rest)),
        forall|w: Seq<char>| #[trigger] is_row_keyword(w) <==> row_keywords().contains(w),
{
    assert forall|w: Seq<char>| #[trigger] is_row_keyword(w) <==> row_keywords().contains(w) by {
        if row_keywords().contains(w) {
            let i = choose|i: int| 0 <= i < row_keywords().len() && row_keywords()[i] == w;
            assert(0 <= i < 8);
        }
        if is_row_keyword(w) {
            if w == "SELECT"@ {
                assert(row_keywords()[0] == w);
            } else if w == "SHOW"@ {
                assert(row_keywords()[1] == w);
            } else if w == "EXPLAIN"@ {
                assert(row_keywords()[2] == w);
            } else if w == "DESCRIBE"@ {
                assert(row_keywords()[3] == w);
            } else if w == "DESC"@ {
                assert(row_keywords()[4] == w);
            } else if w == "WITH"@ {
                assert(row_keywords()[5] == w);
            } else if w == "VALUES"@ {
                assert(row_keywords()[6] == w);
            } else {
                assert(row_keywords()[7] == w);
            }
        }
    }
    reveal_strlit("SELECT");
    reveal_strlit("SHOW");
    reveal_strlit("EXPLAIN");
    reveal_strlit("DESCRIBE");
    reveal_strlit("DESC");
    reveal_strlit("WITH");
    reveal_strlit("VALUES");
    reveal_strlit("TABLE");
    let w = row_keywords()[k];
    assert(upper_word(w));
    lemma_leading_keyword_of_word(w, rest);
}

/// Index of the first character of `v` that ends a word, or `v.len()`.
fn find_word_end(v: &Vec<char>) -> (k: usize)
    ensures
        k == word_end(v@),
        k <= v.len(),
{
    let mut k: usize = 0;
    assert(v@.skip(0) =~= v@);
    while k < v.len() && !(is_whitespace(v[k]) || v[k] == '(')
        invariant
            k <= v.len(),
            word_end(v@) == k + word_end(v@.skip(k as int)),
        decreases v.len() - k,
    {
        assert(v@.skip(k as int).drop_first() =~= v@.skip(k + 1));
        k = k + 1;
    }
    k
}

/// `char::to_ascii_uppercase`.
fn upper(c: char) -> (r: char)
    ensures
        r == ascii_upper(c),
{
    if 'a' <= c && c <= 'z' {
        (((c as u32) - 32) as u8) as char
    } else {
        c
    }
}

/// Whether the trimmed `v` starts with `--`.
fn is_dash_comment(v: &Vec<char>) -> (r: bool)
    ensures
        r == starts_with_dashes(trim(v@)),
{
    let t = trim_chars(v);
    t.len() >= 2 && t[0] == '-' && t[1] == '-'
}

/// Whether a statement returns rows, judged by its leading keyword
/// (`SELECT`, `SHOW`, `EXPLAIN`, `DESCRIBE`, `DESC`, `WITH`, `VALUES`,
/// `TABLE`, in any letter case).
pub fn returns_rows(sql: &str) -> (r: bool)
    ensures
        r == is_row_keyword(leading_keyword(sql@)),
{
    let text = chars_of(sql);
    let head = trim_start_chars(&text);
    let ls = split_lines(&head);
    let mut i: usize = 0;
    assert(texts(ls@).skip(0) =~= texts(ls@));
    while i < ls.len() && is_dash_comment(&ls[i])
        invariant
            i <= ls.len(),
            first_statement_line(texts(ls@)) == first_statement_line(texts(ls@).skip(i as int)),
        decreases ls.len() - i,
    {
        assert(texts(ls@).skip(i as int)[0] == ls@[i as int]@);
        assert(texts(ls@).skip(i as int).drop_first() =~= texts(ls@).skip(i + 1));
        i = i + 1;
    }
    let line = if i < ls.len() {
        assert(texts(ls@).skip(i as int)[0] == ls@[i as int]@);
        slice_chars(&ls[i], 0, ls[i].len())
    } else {
        Vec::new()
    };
    assert(line@ =~= first_statement_line(lines(trim_start(sql@))));
    let k = find_word_end(&line);
    let mut word: Vec<char> = Vec::new();
    let mut j: usize = 0;
    while j < k
        invariant
            j <= k <= line.len(),
            word@ == ascii_upper_text(line@.take(j as int)),
        decreases k - j,
    {
        word.push(upper(line[j]));
        j = j + 1;
        assert(word@ =~= ascii_upper_text(line@.take(j as int)));
    }
    chars_eq_str(&word, "SELECT") || chars_eq_str(&word, "SHOW") || chars_eq_str(&word, "EXPLAIN")
        || chars_eq_str(&word, "DESCRIBE") || chars_eq_str(&word, "DESC") || chars_eq_str(
        &word,
        "WITH",
    ) || chars_eq_str(&word, "VALUES") || chars_eq_str(&word, "TABLE")
}

/// Leading whitespace before a statement does not change whether it
/// returns rows.
pub proof fn lemma_leading_whitespace_ignored(ws: Seq<char>, sql: Seq<char>)
    requires
        forall|i: int| 0 <= i < ws.len() ==> is_ws(#[trigger] ws[i]),
    ensures
        leading_keyword(ws + sql) == leading_keyword(sql),
    decreases ws.len(),
{
    if ws.len() > 0 {
        assert((ws + sql)[0] == ws[0]);
        assert((ws + sql).drop_first() =~= ws.drop_first() + sql);
        assert forall|i: int| 0 <= i < ws.drop_first().len() implies is_ws(
            #[trigger] ws.drop_first()[i],
        ) by {
            assert(ws.drop_first()[i] == ws[i + 1]);
        }
        lemma_leading_whitespace_ignored(ws.drop_first(), sql);
        assert(trim_start(ws + sql) == trim_start((ws + sql).drop_first()));
    } else {
        assert(ws + sql =~= sql);
    }
}

/// `char::to_ascii_lowercase`.
pub open spec fn ascii_lower(c: char) -> char {
    if 'A' <= c <= 'Z' {
        (((c as u32) + 32) as u8) as char
    } else {
        c
    }
}

/// `str::to_ascii_lowercase`.
pub open spec fn ascii_lower_text(s: Seq<char>) -> Seq<char> {
    s.map_values(|c: char| ascii_lower(c))
}

/// A change of letter case: it keeps every character that the keyword
/// search looks at (whitespace, line ends, `-`, `(`) and does not change a
/// character's upper-case form.
pub open spec fn keeps_keyword_shape(f: spec_fn(char) -> char) -> bool {
    forall|c: char|
        #![trigger f(c)]
        {
            &&& is_ws(f(c)) == is_ws(c)
            &&& (f(c) == '\n') == (c == '\n')
            &&& (f(c) == '\r') == (c == '\r')
            &&& (f(c) == '-') == (c == '-')
            &&& (f(c) == '(') == (c == '(')
            &&& ascii_upper(f(c)) == ascii_upper(c)
        }
}

/// Each line of `ls` mapped by `f`.
pub open spec fn map_lines(ls: Seq<Seq<char>>, f: spec_fn(char) -> char) -> Seq<Seq<char>> {
    ls.map_values(|l: Seq<char>| l.map_values(f))
}

proof fn lemma_trim_start_map(s: Seq<char>, f: spec_fn(char) -> char)
    requires
        keeps_keyword_shape(f),
    ensures
        trim_start(s.map_values(f)) == trim_start(s).map_values(f),
    decreases s.len(),
{
    let m = s.map_values(f);
    if s.len() > 0 && is_ws(s[0]) {
        assert(m[0] == f(s[0]));
        assert(m.drop_first() =~= s.drop_first().map_values(f));
        lemma_trim_start_map(s.drop_first(), f);
    } else if s.len() > 0 {
        assert(m[0] == f(s[0]));
    }
}

proof fn lemma_trim_end_map(s: Seq<char>, f: spec_fn(char) -> char)
    requires
        keeps_keyword_shape(f),
    ensures
        trim_end(s.map_values(f)) == trim_end(s).map_values(f),
    decreases s.len(),
{
    let m = s.map_values(f);
    if s.len() > 0 && is_ws(s.last()) {
        assert(m.last() == f(s.last()));
        assert(m.drop_last() =~= s.drop_last().map_values(f));
        lemma_trim_end_map(s.drop_last(), f);
    } else if s.len() > 0 {
        assert(m.last() == f(s.last()));
    }
}

proof fn lemma_index_of_map(s: Seq<char>, f: spec_fn(char) -> char)
    requires
        keeps_keyword_shape(f),
    ensures
        index_of(s.map_values(f), '\n') == index_of(s, '\n'),
    decreases s.len(),
{
    let m = s.map_values(f);
    if s.len() > 0 {
        assert(m[0] == f(s[0]));
        assert(m.drop_first() =~= s.drop_first().map_values(f));
        lemma_index_of_map(s.drop_first(), f);
    }
}

proof fn lemma_lines_map(s: Seq<char>, f: spec_fn(char) -> char)
    requires
        keeps_keyword_shape(f),
    ensures
        lines(s.map_values(f)) == map_lines(lines(s), f),
    decreases s.len(),
{
    let m = s.map_values(f);
    if s.len() == 0 {
        assert(map_lines(lines(s), f) =~= Seq::<Seq<char>>::empty());
    } else {
        let k = index_of(s, '\n');
        lemma_index_of_map(s, f);
        lemma_index_of_bounds(s, '\n');
        if k >= s.len() {
            assert(map_lines(lines(s), f) =~= seq![m]);
        } else {
            let t = s.take(k);
            assert(m.take(k) =~= t.map_values(f));
            assert(m.skip(k + 1) =~= s.skip(k + 1).map_values(f));
            lemma_lines_map(s.skip(k + 1), f);
            let st = strip_cr(t).map_values(f);
            assert(strip_cr(t.map_values(f)) == st) by {
                if t.len() > 0 {
                    assert(t.map_values(f).last() == f(t.last()));
                    if t.last() == '\r' {
                        assert(t.map_values(f).drop_last() =~= t.drop_last().map_values(f));
                    }
                }
            }
            assert(map_lines(lines(s), f) =~= seq![st] + map_lines(lines(s.skip(k + 1)), f));
        }
    }
}

proof fn lemma_first_statement_line_map(ls: Seq<Seq<char>>, f: spec_fn(char) -> char)
    requires
        keeps_keyword_shape(f),
    ensures
        first_statement_line(map_lines(ls, f)) == first_statement_line(ls).map_values(f),
    decreases ls.len(),
{
    let ml = map_lines(ls, f);
    if ls.len() == 0 {
        assert(Seq::<char>::empty().map_values(f) =~= Seq::<char>::empty());
    } else {
        let x = ls[0];
        assert(ml[0] == x.map_values(f));
        lemma_trim_end_map(x, f);
        lemma_trim_start_map(trim_end(x), f);
        let t = trim(x);
        let tm = t.map_values(f);
        assert(trim(x.map_values(f)) == tm);
        if t.len() >= 2 {
            assert(tm[0] == f(t[0]) && tm[1] == f(t[1]));
        }
        assert(starts_with_dashes(tm) == starts_with_dashes(t));
        assert(ml.drop_first() =~= map_lines(ls.drop_first(), f));
        lemma_first_statement_line_map(ls.drop_first(), f);
    }
}

proof fn lemma_word_end_map(s: Seq<char>, f: spec_fn(char) -> char)
    requires
        keeps_keyword_shape(f),
    ensures
        word_end(s.map_values(f)) == word_end(s),
    decreases s.len(),
{
    let m = s.map_values(f);
    if s.len() > 0 {
        assert(m[0] == f(s[0]));
        assert(m.drop_first() =~= s.drop_first().map_values(f));
        lemma_word_end_map(s.drop_first(), f);
    }
}

/// A change of letter case that keeps the keyword's shape does not change
/// the leading keyword.
pub proof fn lemma_case_change_keeps_keyword(sql: Seq<char>, f: spec_fn(char) -> char)
    requires
        keeps_keyword_shape(f),
    ensures
        leading_keyword(sql.map_values(f)) == leading_keyword(sql),
{
    lemma_trim_start_map(sql, f);
    lemma_lines_map(trim_start(sql), f);
    lemma_first_statement_line_map(lines(trim_start(sql)), f);
    let head = first_statement_line(lines(trim_start(sql)));
    let hm = head.map_values(f);
    lemma_word_end_map(head, f);
    lemma_word_end_bounds(head);
    let k = word_end(head);
    assert(ascii_upper_text(hm.take(k)) =~= ascii_upper_text(head.take(k))) by {
        assert forall|i: int| 0 <= i < k implies ascii_upper_text(hm.take(k))[i] == ascii_upper_text(
            head.take(k),
        )[i] by {
            assert(hm[i] == f(head[i]));
        }
    }
}

proof fn lemma_word_end_bounds(s: Seq<char>)
    ensures
        0 <= word_end(s) <= s.len(),
    decreases s.len(),
{
    if s.len() > 0 {
        lemma_word_end_bounds(s.drop_first());
    }
}

/// Whether a statement returns rows does not depend on ASCII letter case:
/// the statement lower-cased, or upper-cased, is judged the same.
pub proof fn lemma_ascii_case_ignored(sql: Seq<char>)
    ensures
        leading_keyword(ascii_lower_text(sql)) == leading_keyword(sql),
        leading_keyword(ascii_upper_text(sql)) == leading_keyword(sql),
{
    let lo = |c: char| ascii_lower(c);
    let up = |c: char| ascii_upper(c);
    assert forall|c: char| #![trigger lo(c)] {
        &&& is_ws(lo(c)) == is_ws(c)
        &&& (lo(c) == '\n') == (c == '\n')
        &&& (lo(c) == '\r') == (c == '\r')
        &&& (lo(c) == '-') == (c == '-')
        &&& (lo(c) == '(') == (c == '(')
        &&& ascii_upper(lo(c)) == ascii_upper(c)
    } by {
        if 'A' <= c <= 'Z' {
            let u = c as u32;
            assert(lo(c) as u32 == u + 32);
            assert(ascii_upper(lo(c)) as u32 == u);
            assert((ascii_upper(lo(c)) as u32) == (c as u32));
        }
    }
    assert forall|c: char| #![trigger up(c)] {
        &&& is_ws(up(c)) == is_ws(c)
        &&& (up(c) == '\n') == (c == '\n')
        &&& (up(c) == '\r') == (c == '\r')
        &&& (up(c) == '-') == (c == '-')
        &&& (up(c) == '(') == (c == '(')
        &&& ascii_upper(up(c)) == ascii_upper(c)
    } by {
        if 'a' <= c <= 'z' {
            assert(up(c) as u32 == (c as u32) - 32);
        }
    }
    lemma_case_change_keeps_keyword(sql, lo);
    lemma_case_change_keeps_keyword(sql, up);
}

// ---------------------------------------------------------------------------
// Hexadecimal rendering
// ---------------------------------------------------------------------------

/// The lower-case hexadecimal digit for `d < 16`.
pub open spec fn hex_digit(d: nat) -> char {
    if d < 10 {
        ((d + 48) as u8) as char
    } else {
        ((d + 87) as u8) as char
    }
}

/// Two lower-case hexadecimal digits per byte (`{:02x}` on each byte).
pub open spec fn hex_of(bytes: Seq<u8>) -> Seq<char>
    decreases bytes.len(),
{
    if bytes.len() == 0 {
        seq![]
    } else {
        hex_of(bytes.drop_last()) + seq![
            hex_digit((bytes.last() / 16) as nat),
            hex_digit((bytes.last() % 16) as nat),
        ]
    }
}

fn hex_char(d: u8) -> (c: char)
    requires
        d < 16,
    ensures
        c == hex_digit(d as nat),
{
    if d < 10 {
        (d + 48) as char
    } else {
        (d + 87) as char
    }
}

/// Two lower-case hexadecimal digits per byte.
pub fn to_hex(bytes: &[u8]) -> (r: String)
    ensures
        r@ == hex_of(bytes@),
{
    let mut out: Vec<char> = Vec::new();
    let mut i: usize = 0;
    assert(bytes@.take(0) =~= Seq::<u8>::empty());
    while i < bytes.len()
        invariant
            i <= bytes.len(),
            out@ == hex_of(bytes@.take(i as int)),
        decreases bytes.len() - i,
    {
        let b = bytes[i];
        out.push(hex_char(b / 16));
        out.push(hex_char(b % 16));
        assert(bytes@.take(i + 1).drop_last() =~= bytes@.take(i as int));
        i = i + 1;
        assert(out@ =~= hex_of(bytes@.take(i as int)));
    }
    assert(bytes@.take(bytes.len() as int) =~= bytes@);
    string_of(&out)
}

// ---------------------------------------------------------------------------
// Sorting a result block
// ---------------------------------------------------------------------------

/// A result block with its first line (the header) kept in place and the
/// other lines sorted lexicographically; every line ends with `\n`.
pub open spec fn sorted_block(block: Seq<char>) -> Seq<char> {
    let ls = lines(block);
    if ls.len() == 0 {
        seq![]
    } else {
        ls[0].push('\n') + terminated(ls.drop_first().sort_by(text_order()), '\n')
    }
}

/// Appends each of `parts` followed by `c` to `out`.
fn push_terminated(out: &mut Vec<char>, parts: &Vec<Vec<char>>, c: char)
    ensures
        final(out)@ == old(out)@ + terminated(texts(parts@), c),
{
    let mut i: usize = 0;
    assert(texts(parts@).take(0) =~= Seq::<Seq<char>>::empty());
    assert(old(out)@ + terminated(texts(parts@).take(0), c) =~= old(out)@);
    while i < parts.len()
        invariant
            i <= parts.len(),
            out@ == old(out)@ + terminated(texts(parts@).take(i as int), c),
        decreases parts.len() - i,
    {
        push_all(out, &parts[i]);
        out.push(c);
        let ghost t = texts(parts@).take(i + 1);
        assert(t.drop_last() =~= texts(parts@).take(i as int));
        assert(t.last() == parts@[i as int]@);
        i = i + 1;
        assert(out@ =~= old(out)@ + terminated(texts(parts@).take(i as int), c));
    }
    assert(texts(parts@).take(parts.len() as int) =~= texts(parts@));
}

/// Sorts the data rows of a result block: the header row (the first line)
/// stays in place, everything below it is sorted lexicographically.
pub fn sort_block(block: &str) -> (r: String)
    ensures
        r@ == sorted_block(block@),
{
    let text = chars_of(block);
    let ls = split_lines(&text);
    if ls.len() == 0 {
        return String::new();
    }
    let mut data: Vec<Vec<char>> = Vec::new();
    let mut i: usize = 1;
    assert(texts(data@) =~= texts(ls@).subrange(1, 1));
    while i < ls.len()
        invariant
            1 <= i <= ls.len(),
            texts(data@) == texts(ls@).subrange(1, i as int),
        decreases ls.len() - i,
    {
        let line = slice_chars(&ls[i], 0, ls[i].len());
        assert(line@ =~= ls@[i as int]@);
        let ghost before = texts(data@);
        data.push(line);
        assert(texts(data@) =~= before.push(ls@[i as int]@));
        i = i + 1;
        assert(texts(data@) =~= texts(ls@).subrange(1, i as int));
    }
    assert(texts(data@) =~= lines(block@).drop_first());
    let sorted = sort_texts(data);
    let mut out = slice_chars(&ls[0], 0, ls[0].len());
    out.push('\n');
    push_terminated(&mut out, &sorted, '\n');
    string_of(&out)
}

/// Sorting a block keeps its header line first and puts below it the other
/// lines, each kept as often as it occurs, in lexicographic order; that
/// order of the rows is the only sorted arrangement of them.
pub proof fn lemma_sorted_block_sorts_rows(block: Seq<char>)
    requires
        lines(block).len() > 0,
    ensures
        ({
            let ls = lines(block);
            let rows = ls.drop_first().sort_by(text_order());
            &&& sorted_block(block) == ls[0].push('\n') + terminated(rows, '\n')
            &&& sorted_by(rows, text_order())
            &&& rows.to_multiset() == ls.drop_first().to_multiset()
            &&& forall|other: Seq<Seq<char>>|
                sorted_by(other, text_order()) && other.to_multiset()
                    == ls.drop_first().to_multiset() ==> other == rows
        }),
{
    let ls = lines(block);
    let data = ls.drop_first();
    lemma_text_order_total();
    data.lemma_sort_by_ensures(text_order());
    let rows = data.sort_by(text_order());
    assert forall|other: Seq<Seq<char>>|
        sorted_by(other, text_order()) && other.to_multiset() == data.to_multiset() implies other
        == rows by {
        lemma_sorted_unique(other, rows, text_order());
    }
}

/// Sorting a sorted block again changes nothing, where no line of the block
/// ends with a carriage return (such a line loses it on the second pass).
pub proof fn lemma_sorting_twice_is_sorting_once(block: Seq<char>)
    requires
        forall|i: int|
            0 <= i < lines(block).len() ==> !(#[trigger] lines(block)[i].len() > 0 && lines(
                block,
            )[i].last() == '\r'),
    ensures
        sorted_block(sorted_block(block)) == sorted_block(block),
{
    let ls = lines(block);
    if ls.len() > 0 {
        let data = ls.drop_first();
        lemma_text_order_total();
        data.lemma_sort_by_ensures(text_order());
        let rows = data.sort_by(text_order());
        lemma_lines_hold_no_newline(block);
        assert forall|i: int| 0 <= i < ls.len() implies plain_line(#[trigger] ls[i]) by {
            assert forall|j: int| 0 <= j < ls[i].len() implies #[trigger] ls[i][j] != '\n' by {
                assert(lines(block)[i][j] != '\n');
            }
        }
        assert forall|i: int| 0 <= i < rows.len() implies plain_line(#[trigger] rows[i]) by {
            assert(rows.contains(rows[i]));
            assert(data.contains(rows[i]));
            let j = choose|j: int| 0 <= j < data.len() && data[j] == rows[i];
            assert(data[j] == ls[j + 1]);
        }
        let head = ls[0].push('\n');
        lemma_lines_of_one_line(ls[0]);
        lemma_lines_concat(head, terminated(rows, '\n'));
        lemma_lines_of_terminated(rows);
        let out = sorted_block(block);
        assert(out == head + terminated(rows, '\n'));
        let ls2 = lines(out);
        assert(ls2 =~= seq![ls[0]] + rows);
        assert(ls2[0] == ls[0]);
        assert(ls2.drop_first() =~= rows);
        rows.lemma_sort_by_ensures(text_order());
        lemma_sorted_unique(rows.sort_by(text_order()), rows, text_order());
    }
}

// ---------------------------------------------------------------------------
// Rendering result values and rows
// ---------------------------------------------------------------------------

/// A value of a result cell, as the server sends it (floating-point values
/// are rendered by the caller).
#[derive(Debug, Clone)]
pub enum Value {
    Null,
    Int(i64),
    UInt(u64),
    Bytes(Vec<u8>),
    /// Year, month, day, hour, minute, second, microsecond.
    Date(u16, u8, u8, u8, u8, u8, u32),
    /// Negative, days, hours, minutes, seconds, microseconds.
    Time(bool, u32, u8, u8, u8, u32),
}

/// `{}` on a signed integer.
pub open spec fn signed_digits(i: int) -> Seq<char> {
    if i < 0 {
        seq!['-'] + dec_digits((-i) as nat)
    } else {
        dec_digits(i as nat)
    }
}

/// `{:0w}` on an unsigned integer.
pub open spec fn padded(n: nat, w: nat) -> Seq<char> {
    zero_pad(dec_digits(n), w)
}

/// How a cell value is rendered: `NULL`, decimal integers, text (bytes that
/// are not UTF-8 as `0x` and lower-case hex), dates as `YYYY-MM-DD` with
/// ` hh:mm:ss` unless the time is midnight, times as `[-]hh:mm:ss` with the
/// days folded into the hours.
pub open spec fn value_text(v: &Value) -> Seq<char> {
    match v {
        Value::Null => "NULL"@,
        Value::Int(i) => signed_digits(*i as int),
        Value::UInt(u) => dec_digits(*u as nat),
        Value::Bytes(b) => if valid_utf8(b@) {
            decode_utf8(b@)
        } else {
            "0x"@ + hex_of(b@)
        },
        Value::Date(y, m, d, hh, mm, ss, _us) => {
            let date = padded(*y as nat, 4) + "-"@ + padded(*m as nat, 2) + "-"@ + padded(
                *d as nat,
                2,
            );
            if *hh == 0 && *mm == 0 && *ss == 0 {
                date
            } else {
                date + " "@ + padded(*hh as nat, 2) + ":"@ + padded(*mm as nat, 2) + ":"@
                    + padded(*ss as nat, 2)
            }
        },
        Value::Time(neg, days, h, m, sec, _us) => (if *neg {
            "-"@
        } else {
            seq![]
        }) + padded((*days as nat) * 24 + (*h as nat), 2) + ":"@ + padded(*m as nat, 2) + ":"@
            + padded(*sec as nat, 2),
    }
}

/// A number under 100 is written with exactly two decimal digits: its tens
/// and its units.
pub proof fn lemma_two_digits(n: nat)
    requires
        n < 100,
    ensures
        padded(n, 2) == seq![digit_char(n / 10), digit_char(n % 10)],
{
    if n < 10 {
        assert(digit_char(0) == '0');
        assert(dec_digits(n) == seq![digit_char(n)]);
        assert(padded(n, 2) =~= seq![digit_char(n / 10), digit_char(n % 10)]);
    } else {
        assert(dec_digits(n / 10) == seq![digit_char(n / 10)]);
        assert(padded(n, 2) =~= seq![digit_char(n / 10), digit_char(n % 10)]);
    }
}

/// A date is shown with its time of day unless that time is midnight: the
/// text is the date `yyyy-mm-dd`, and exactly when the hour, the minute or
/// the second is not zero it goes on with ` hh:mm:ss`.
#[verifier::rlimit(40)]
pub proof fn lemma_date_shows_time_unless_midnight(
    y: u16,
    m: u8,
    d: u8,
    hh: u8,
    mm: u8,
    ss: u8,
    us: u32,
)
    ensures
        ({
            let t = value_text(&Value::Date(y, m, d, hh, mm, ss, us));
            let date = padded(y as nat, 4) + "-"@ + padded(m as nat, 2) + "-"@ + padded(
                d as nat,
                2,
            );
            let midnight = hh == 0 && mm == 0 && ss == 0;
            &&& t.len() >= date.len()
            &&& t.take(date.len() as int) == date
            &&& (t.len() == date.len()) <==> midnight
            &&& !midnight ==> t.skip(date.len() as int) == " "@ + padded(hh as nat, 2) + ":"@
                + padded(mm as nat, 2) + ":"@ + padded(ss as nat, 2)
        }),
{
    let date = padded(y as nat, 4) + "-"@ + padded(m as nat, 2) + "-"@ + padded(d as nat, 2);
    let time = " "@ + padded(hh as nat, 2) + ":"@ + padded(mm as nat, 2) + ":"@ + padded(
        ss as nat,
        2,
    );
    let midnight = hh == 0 && mm == 0 && ss == 0;
    let t = value_text(&Value::Date(y, m, d, hh, mm, ss, us));
    assert(t == if midnight {
        date
    } else {
        date + time
    });
    assert(time.len() > 0) by {
        reveal_strlit(" ");
    }
    assert(t.take(date.len() as int) =~= date);
    if !midnight {
        assert(t.skip(date.len() as int) =~= time);
    }
}

/// Whether a value can be rendered: the hours of a time must fit in `u32`.
pub open spec fn value_renderable(v: &Value) -> bool {
    match v {
        Value::Time(_, days, h, _, _, _) => (*days as nat) * 24 + (*h as nat) <= u32::MAX,
        _ => true,
    }
}

/// `std::str::from_utf8`: the text that `bytes` encode, when they are
/// valid UTF-8. The contract claims that `from_utf8` accepts exactly the
/// byte strings that vstd's `valid_utf8` accepts, and decodes them as
/// `decode_utf8` does.
#[verifier::external_body]
fn utf8_text(bytes: &[u8]) -> (r: Option<String>)
    ensures
        r is Some <==> valid_utf8(bytes@),
        r matches Some(s) ==> s@ == decode_utf8(bytes@),
{
    match std::str::from_utf8(bytes) {
        Ok(s) => Some(s.to_string()),
        Err(_) => None,
    }
}

/// `{}` on a signed integer.
fn signed_decimal(i: i64) -> (r: Vec<char>)
    ensures
        r@ == signed_digits(i as int),
{
    if i < 0 {
        let m: u64 = ((-(i + 1)) as u64) + 1;
        let mut r: Vec<char> = Vec::new();
        r.push('-');
        let d = decimal(m);
        push_all(&mut r, &d);
        assert(r@ =~= seq!['-'] + dec_digits((-(i as int)) as nat));
        r
    } else {
        decimal(i as u64)
    }
}

/// Renders one cell value (see [`value_text`]).
pub fn format_value(v: &Value) -> (r: String)
    requires
        value_renderable(v),
    ensures
        r@ == value_text(v),
{
    let mut out: Vec<char> = Vec::new();
    match v {
        Value::Null => {
            push_str(&mut out, "NULL");
        },
        Value::Int(i) => {
            out = signed_decimal(*i);
        },
        Value::UInt(u) => {
            out = decimal(*u);
        },
        Value::Bytes(b) => {
            match utf8_text(b.as_slice()) {
                Some(s) => {
                    return s;
                },
                None => {
                    push_str(&mut out, "0x");
                    let h = to_hex(b.as_slice());
                    push_str(&mut out, h.as_str());
                },
            }
        },
        Value::Date(y, m, d, hh, mm, ss, _us) => {
            let yy = decimal_padded(*y as u64, 4);
            push_all(&mut out, &yy);
            push_str(&mut out, "-");
            let mo = decimal_padded(*m as u64, 2);
            push_all(&mut out, &mo);
            push_str(&mut out, "-");
            let dd = decimal_padded(*d as u64, 2);
            push_all(&mut out, &dd);
            if !(*hh == 0 && *mm == 0 && *ss == 0) {
                push_str(&mut out, " ");
                let h2 = decimal_padded(*hh as u64, 2);
                push_all(&mut out, &h2);
                push_str(&mut out, ":");
                let m2 = decimal_padded(*mm as u64, 2);
                push_all(&mut out, &m2);
                push_str(&mut out, ":");
                let s2 = decimal_padded(*ss as u64, 2);
                push_all(&mut out, &s2);
            }
        },
        Value::Time(neg, days, h, m, sec, _us) => {
            if *neg {
                push_str(&mut out, "-");
            }
            let total: u32 = *days * 24 + (*h as u32);
            let t = decimal_padded(total as u64, 2);
            push_all(&mut out, &t);
            push_str(&mut out, ":");
            let m2 = decimal_padded(*m as u64, 2);
            push_all(&mut out, &m2);
            push_str(&mut out, ":");
            let s2 = decimal_padded(*sec as u64, 2);
            push_all(&mut out, &s2);
        },
    }
    string_of(&out)
}

/// One result row: the names of its columns and its rendered cells.
#[derive(Debug, Clone)]
pub struct Row {
    pub columns: Vec<String>,
    pub cells: Vec<String>,
}

/// The cell lines of `rows`: each row's cells joined by tabs.
pub open spec fn cell_lines(rows: Seq<Row>) -> Seq<Seq<char>> {
    rows.map_values(|r: Row| joined(strs(r.cells@), '\t'))
}

/// A result block: nothing for no rows; otherwise the first row's column
/// names joined by tabs, then each row's cells joined by tabs, each line
/// ended by `\n`.
pub open spec fn rows_text(rows: Seq<Row>) -> Seq<char> {
    if rows.len() == 0 {
        seq![]
    } else {
        joined(strs(rows[0].columns@), '\t').push('\n') + terminated(cell_lines(rows), '\n')
    }
}

/// Renders the rows of a result (see [`rows_text`]).
pub fn format_rows(rows: &[Row]) -> (r: String)
    ensures
        r@ == rows_text(rows@),
{
    let mut out: Vec<char> = Vec::new();
    if rows.len() == 0 {
        return string_of(&out);
    }
    push_joined(&mut out, &rows[0].columns, '\t');
    out.push('\n');
    let ghost head = out@;
    let mut i: usize = 0;
    assert(cell_lines(rows@).take(0) =~= Seq::<Seq<char>>::empty());
    assert(head + terminated(cell_lines(rows@).take(0), '\n') =~= head);
    while i < rows.len()
        invariant
            i <= rows.len(),
            out@ == head + terminated(cell_lines(rows@).take(i as int), '\n'),
        decreases rows.len() - i,
    {
        push_joined(&mut out, &rows[i].cells, '\t');
        out.push('\n');
        let ghost t = cell_lines(rows@).take(i + 1);
        assert(t.drop_last() =~= cell_lines(rows@).take(i as int));
        assert(t.last() == joined(strs(rows@[i as int].cells@), '\t'));
        i = i + 1;
        assert(out@ =~= head + terminated(cell_lines(rows@).take(i as int), '\n'));
    }
    assert(cell_lines(rows@).take(rows.len() as int) =~= cell_lines(rows@));
    string_of(&out)
}

} // verus!
