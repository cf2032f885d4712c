//! Character-level text helpers shared by the parser, the result comparison
//! and the result rendering.
//!
//! Text is modelled as `Seq<char>`; executable code works on `Vec<char>` and
//! converts at the edges with [`chars_of`] and [`string_of`].

use vstd::prelude::*;
use vstd::std_specs::iter::IteratorSpec;

verus! {

broadcast use vstd::string::group_string_axioms;

// ---------------------------------------------------------------------------
// Specifications
// ---------------------------------------------------------------------------

/// Unicode `White_Space`, the set that `char::is_whitespace` tests.
pub open spec fn is_ws(c: char) -> bool {
    let u = c as u32;
    ||| 0x9 <= u <= 0xd
    ||| u == 0x20
    ||| u == 0x85
    ||| u == 0xa0
    ||| u == 0x1680
    ||| 0x2000 <= u <= 0x200a
    ||| u == 0x2028
    ||| u == 0x2029
    ||| u == 0x202f
    ||| u == 0x205f
    ||| u == 0x3000
}

/// `s` with every trailing character that satisfies `p` removed.
pub open spec fn trim_end_by(s: Seq<char>, p: spec_fn(char) -> bool) -> Seq<char>
    decreases s.len(),
{
    if s.len() > 0 && p(s.last()) {
        trim_end_by(s.drop_last(), p)
    } else {
        s
    }
}

/// `s` with every leading character that satisfies `p` removed.
pub open spec fn trim_start_by(s: Seq<char>, p: spec_fn(char) -> bool) -> Seq<char>
    decreases s.len(),
{
    if s.len() > 0 && p(s[0]) {
        trim_start_by(s.drop_first(), p)
    } else {
        s
    }
}

/// `str::trim_end`.
pub open spec fn trim_end(s: Seq<char>) -> Seq<char> {
    trim_end_by(s, |c: char| is_ws(c))
}

/// `str::trim_start`.
pub open spec fn trim_start(s: Seq<char>) -> Seq<char> {
    trim_start_by(s, |c: char| is_ws(c))
}

/// `str::trim`.
pub open spec fn trim(s: Seq<char>) -> Seq<char> {
    trim_start(trim_end(s))
}

/// Index of the first `c` in `s`, or `s.len()`.
pub open spec fn index_of(s: Seq<char>, c: char) -> int
    decreases s.len(),
{
    if s.len() == 0 {
        0
    } else if s[0] == c {
        0
    } else {
        1 + index_of(s.drop_first(), c)
    }
}

/// `s` without one trailing carriage return.
pub open spec fn strip_cr(s: Seq<char>) -> Seq<char> {
    if s.len() > 0 && s.last() == '\r' {
        s.drop_last()
    } else {
        s
    }
}

/// The lines of `s` as `str::lines` yields them: split at `\n`, a `\r` just
/// before a `\n` dropped, and no empty line after a final `\n`.
pub open spec fn lines(s: Seq<char>) -> Seq<Seq<char>>
    decreases s.len(),
{
    if s.len() == 0 {
        seq![]
    } else {
        let k = index_of(s, '\n');
        proof {
            lemma_index_of_bounds(s, '\n');
        }
        if k >= s.len() {
            seq![s]
        } else {
            seq![strip_cr(s.take(k))] + lines(s.skip(k + 1))
        }
    }
}

/// The pieces of `s` between the occurrences of `sep` (`str::split`).
pub open spec fn split_on(s: Seq<char>, sep: char) -> Seq<Seq<char>>
    decreases s.len(),
{
    let k = index_of(s, sep);
    proof {
        lemma_index_of_bounds(s, sep);
    }
    if k >= s.len() {
        seq![s]
    } else {
        seq![s.take(k)] + split_on(s.skip(k + 1), sep)
    }
}

/// The decimal digit for `d < 10`.
pub open spec fn digit_char(d: nat) -> char {
    ((d + 48) as u8) as char
}

/// The decimal representation of `n`, without sign or padding.
pub open spec fn dec_digits(n: nat) -> Seq<char>
    decreases n,
{
    if n < 10 {
        seq![digit_char(n)]
    } else {
        dec_digits(n / 10).push(digit_char(n % 10))
    }
}

/// `s` padded on the left with `'0'` to at least `width` characters.
pub open spec fn zero_pad(s: Seq<char>, width: nat) -> Seq<char> {
    if s.len() >= width {
        s
    } else {
        Seq::new((width - s.len()) as nat, |i: int| '0') + s
    }
}

/// The concatenation of `parts`, each followed by `c`.
pub open spec fn terminated(parts: Seq<Seq<char>>, c: char) -> Seq<char>
    decreases parts.len(),
{
    if parts.len() == 0 {
        seq![]
    } else {
        terminated(parts.drop_last(), c) + parts.last().push(c)
    }
}

/// The concatenation of `parts` with `sep` between neighbours.
pub open spec fn joined(parts: Seq<Seq<char>>, sep: char) -> Seq<char>
    decreases parts.len(),
{
    if parts.len() == 0 {
        seq![]
    } else if parts.len() == 1 {
        parts[0]
    } else {
        joined(parts.drop_last(), sep).push(sep) + parts.last()
    }
}

// ---------------------------------------------------------------------------
// Lemmas
// ---------------------------------------------------------------------------

/// The views of a sequence of character vectors.
pub open spec fn texts(v: Seq<Vec<char>>) -> Seq<Seq<char>> {
    v.map_values(|l: Vec<char>| l@)
}

/// The views of a sequence of strings.
pub open spec fn strs(v: Seq<String>) -> Seq<Seq<char>> {
    v.map_values(|s: String| s@)
}

/// `index_of` is the first position holding `c`.
pub proof fn lemma_index_of(s: Seq<char>, c: char, k: int)
    requires
        0 <= k <= s.len(),
        forall|j: int| 0 <= j < k ==> #[trigger] s[j] != c,
        k == s.len() || s[k] == c,
    ensures
        index_of(s, c) == k,
    decreases k,
{
    if k > 0 {
        assert forall|j: int| 0 <= j < k - 1 implies #[trigger] s.drop_first()[j] != c by {
            assert(s.drop_first()[j] == s[j + 1]);
        }
        lemma_index_of(s.drop_first(), c, k - 1);
    }
}

/// `index_of` lies within `0..=s.len()` and no earlier position holds `c`.
pub proof fn lemma_index_of_bounds(s: Seq<char>, c: char)
    ensures
        0 <= index_of(s, c) <= s.len(),
        index_of(s, c) < s.len() ==> s[index_of(s, c)] == c,
        forall|j: int| 0 <= j < index_of(s, c) ==> #[trigger] s[j] != c,
    decreases s.len(),
{
    if s.len() > 0 && s[0] != c {
        lemma_index_of_bounds(s.drop_first(), c);
        assert forall|j: int| 0 <= j < index_of(s, c) implies #[trigger] s[j] != c by {
            if j > 0 {
                assert(s[j] == s.drop_first()[j - 1]);
            }
        }
    }
}

/// A final line ending changes only the last line, which loses a trailing
/// carriage return.
pub proof fn lemma_lines_final_newline(s: Seq<char>)
    requires
        s.len() > 0,
        s.last() != '\n',
    ensures
        lines(s).len() > 0,
        lines(s.push('\n')) == lines(s).update(
            lines(s).len() - 1,
            strip_cr(lines(s)[lines(s).len() - 1]),
        ),
    decreases s.len(),
{
    let t = s.push('\n');
    let k = index_of(s, '\n');
    lemma_index_of_bounds(s, '\n');
    if k >= s.len() {
        assert forall|j: int| 0 <= j < s.len() implies #[trigger] t[j] != '\n' by {
            assert(t[j] == s[j]);
        }
        lemma_index_of(t, '\n', s.len() as int);
        assert(t.take(s.len() as int) =~= s);
        assert(t.skip(s.len() as int + 1) =~= Seq::<char>::empty());
        assert(lines(Seq::<char>::empty()) == Seq::<Seq<char>>::empty());
        assert(lines(t) == seq![strip_cr(t.take(s.len() as int))] + lines(t.skip(s.len() as int + 1)));
        assert(lines(t) =~= seq![strip_cr(s)] + Seq::<Seq<char>>::empty());
        assert(lines(t) =~= lines(s).update(0, strip_cr(s)));
    } else {
        assert(k < s.len() - 1);
        assert forall|j: int| 0 <= j < k implies #[trigger] t[j] != '\n' by {
            assert(t[j] == s[j]);
        }
        lemma_index_of(t, '\n', k);
        let rest = s.skip(k + 1);
        assert(t.take(k) =~= s.take(k));
        assert(t.skip(k + 1) =~= rest.push('\n'));
        assert(rest.last() == s.last());
        lemma_lines_final_newline(rest);
        let h = strip_cr(s.take(k));
        let l2 = lines(rest);
        assert(lines(s) == seq![h] + l2);
        assert(lines(t) == seq![h] + lines(rest.push('\n')));
        assert(lines(t) =~= (seq![h] + l2).update(
            l2.len() as int,
            strip_cr(l2[l2.len() - 1]),
        ));
    }
}

/// Text that ends with a line ending (or is empty) splits into its own
/// lines followed by the lines of what comes after it.
pub proof fn lemma_lines_concat(a: Seq<char>, b: Seq<char>)
    requires
        a.len() == 0 || a.last() == '\n',
    ensures
        lines(a + b) == lines(a) + lines(b),
    decreases a.len(),
{
    if a.len() == 0 {
        assert(a + b =~= b);
        assert(lines(a) =~= Seq::<Seq<char>>::empty());
        assert(lines(a) + lines(b) =~= lines(b));
    } else {
        let t = a + b;
        let k = index_of(a, '\n');
        lemma_index_of_bounds(a, '\n');
        assert(a[a.len() - 1] == '\n');
        assert(k < a.len());
        assert forall|j: int| 0 <= j < k implies #[trigger] t[j] != '\n' by {
            assert(t[j] == a[j]);
        }
        assert(t[k] == a[k]);
        lemma_index_of(t, '\n', k);
        let rest = a.skip(k + 1);
        assert(t.take(k) =~= a.take(k));
        assert(t.skip(k + 1) =~= rest + b);
        if rest.len() > 0 {
            assert(rest.last() == a.last());
        }
        lemma_lines_concat(rest, b);
        assert(lines(a) == seq![strip_cr(a.take(k))] + lines(rest));
        assert(lines(t) == seq![strip_cr(a.take(k))] + lines(rest + b));
        assert(lines(t) =~= lines(a) + lines(b));
    }
}

/// A line as `lines` can give it back unchanged: no `\n` in it and no `\r`
/// at its end.
pub open spec fn plain_line(x: Seq<char>) -> bool {
    &&& forall|j: int| 0 <= j < x.len() ==> #[trigger] x[j] != '\n'
    &&& !(x.len() > 0 && x.last() == '\r')
}

/// No line that `lines` gives holds a `\n`.
pub proof fn lemma_lines_hold_no_newline(s: Seq<char>)
    ensures
        forall|i: int, j: int|
            0 <= i < lines(s).len() && 0 <= j < lines(s)[i].len() ==> #[trigger] lines(s)[i][j]
                != '\n',
    decreases s.len(),
{
    if s.len() > 0 {
        let k = index_of(s, '\n');
        lemma_index_of_bounds(s, '\n');
        if k < s.len() {
            lemma_lines_hold_no_newline(s.skip(k + 1));
            let rest = lines(s.skip(k + 1));
            let first = strip_cr(s.take(k));
            assert(lines(s) == seq![first] + rest);
            assert forall|i: int, j: int|
                0 <= i < lines(s).len() && 0 <= j < lines(s)[i].len() implies #[trigger] lines(
                s,
            )[i][j] != '\n' by {
                if i == 0 {
                    assert(first[j] == s[j]);
                } else {
                    assert(lines(s)[i] == rest[i - 1]);
                }
            }
        }
    }
}

/// A plain line followed by a line ending is that one line.
pub proof fn lemma_lines_of_one_line(x: Seq<char>)
    requires
        plain_line(x),
    ensures
        lines(x.push('\n')) == seq![x],
{
    let t = x.push('\n');
    assert forall|j: int| 0 <= j < x.len() implies #[trigger] t[j] != '\n' by {
        assert(t[j] == x[j]);
    }
    lemma_index_of(t, '\n', x.len() as int);
    assert(t.take(x.len() as int) =~= x);
    let e = t.skip(x.len() as int + 1);
    assert(e =~= Seq::<char>::empty());
    assert(lines(e) == Seq::<Seq<char>>::empty());
    assert(strip_cr(x) == x);
    assert(lines(t) == seq![strip_cr(t.take(x.len() as int))] + lines(e));
    assert(lines(t) =~= seq![x]);
}

/// Plain lines, each followed by a line ending, read back as those lines.
pub proof fn lemma_lines_of_terminated(parts: Seq<Seq<char>>)
    requires
        forall|i: int| 0 <= i < parts.len() ==> plain_line(#[trigger] parts[i]),
    ensures
        lines(terminated(parts, '\n')) == parts,
    decreases parts.len(),
{
    if parts.len() == 0 {
        assert(lines(Seq::<char>::empty()) =~= parts);
    } else {
        let init = parts.drop_last();
        assert forall|i: int| 0 <= i < init.len() implies plain_line(#[trigger] init[i]) by {
            assert(init[i] == parts[i]);
        }
        lemma_lines_of_terminated(init);
        let head = terminated(init, '\n');
        if init.len() > 0 {
            let l = init.last();
            assert(head == terminated(init.drop_last(), '\n') + l.push('\n'));
            assert(head.last() == '\n');
        }
        assert(plain_line(parts[parts.len() - 1]));
        lemma_lines_concat(head, parts.last().push('\n'));
        lemma_lines_of_one_line(parts.last());
        assert(lines(terminated(parts, '\n')) =~= init + seq![parts.last()]);
        assert(init + seq![parts.last()] =~= parts);
    }
}

/// Whether `s` holds a character that is not whitespace.
pub open spec fn has_text(s: Seq<char>) -> bool {
    exists|j: int| 0 <= j < s.len() && !is_ws(#[trigger] s[j])
}

/// Trimming keeps every character that is not whitespace.
pub proof fn lemma_trim_end_keeps_text(s: Seq<char>, j: int)
    requires
        0 <= j < s.len(),
        !is_ws(s[j]),
    ensures
        j < trim_end(s).len(),
        trim_end(s)[j] == s[j],
    decreases s.len(),
{
    if s.len() > 0 && is_ws(s.last()) {
        assert(j < s.len() - 1);
        assert(s.drop_last()[j] == s[j]);
        lemma_trim_end_keeps_text(s.drop_last(), j);
    }
}

proof fn lemma_trim_start_keeps_text(s: Seq<char>, j: int)
    requires
        0 <= j < s.len(),
        !is_ws(s[j]),
    ensures
        trim_start(s).len() > 0,
    decreases s.len(),
{
    if s.len() > 0 && is_ws(s[0]) {
        assert(j > 0);
        assert(s.drop_first()[j - 1] == s[j]);
        lemma_trim_start_keeps_text(s.drop_first(), j - 1);
    }
}

/// Text with a character that is not whitespace does not trim to nothing.
pub proof fn lemma_has_text_trim(s: Seq<char>)
    requires
        has_text(s),
    ensures
        trim(s).len() > 0,
{
    let j = choose|j: int| 0 <= j < s.len() && !is_ws(#[trigger] s[j]);
    lemma_trim_end_keeps_text(s, j);
    lemma_trim_start_keeps_text(trim_end(s), j);
}

// ---------------------------------------------------------------------------
// Conversions
// ---------------------------------------------------------------------------

/// Appends one character to a `String` (`String::push`).
#[verifier::external_body]
fn string_push(s: &mut String, c: char)
    ensures
        final(s)@ == old(s)@.push(c),
{
    s.push(c);
}

/// The characters of a string slice, in order.
pub fn chars_of(s: &str) -> (v: Vec<char>)
    ensures
        v@ == s@,
{
    let mut it = s.chars();
    let mut v: Vec<char> = Vec::new();
    loop
        invariant
            it.obeys_prophetic_iter_laws(),
            it.decrease() is Some,
            v@ + it.remaining() == s@,
        ensures
            v@ == s@,
        decreases it.decrease()->0,
    {
        match it.next() {
            Some(c) => {
                v.push(c);
            },
            None => {
                assert(v@ =~= v@ + it.remaining());
                break ;
            },
        }
    }
    v
}

/// A `String` holding exactly the given characters.
pub fn string_of(v: &Vec<char>) -> (s: String)
    ensures
        s@ == v@,
{
    let mut s = String::new();
    let mut i: usize = 0;
    while i < v.len()
        invariant
            i <= v.len(),
            s@ == v@.take(i as int),
        decreases v.len() - i,
    {
        string_push(&mut s, v[i]);
        i = i + 1;
        assert(v@.take(i as int) =~= v@.take(i - 1).push(v@[i - 1]));
    }
    assert(v@.take(v.len() as int) =~= v@);
    s
}

// ---------------------------------------------------------------------------
// Executable helpers on character vectors
// ---------------------------------------------------------------------------

/// `char::is_whitespace`.
pub fn is_whitespace(c: char) -> (b: bool)
    ensures
        b == is_ws(c),
{
    let u = c as u32;
    (0x9 <= u && u <= 0xd) || u == 0x20 || u == 0x85 || u == 0xa0 || u == 0x1680 || (0x2000 <= u
        && u <= 0x200a) || u == 0x2028 || u == 0x2029 || u == 0x202f || u == 0x205f || u == 0x3000
}

/// The characters `v[lo..hi]`.
pub fn slice_chars(v: &Vec<char>, lo: usize, hi: usize) -> (r: Vec<char>)
    requires
        lo <= hi <= v.len(),
    ensures
        r@ == v@.subrange(lo as int, hi as int),
{
    let mut r: Vec<char> = Vec::new();
    let mut i = lo;
    while i < hi
        invariant
            lo <= i <= hi <= v.len(),
            r@ == v@.subrange(lo as int, i as int),
        decreases hi - i,
    {
        r.push(v[i]);
        i = i + 1;
        assert(r@ =~= v@.subrange(lo as int, i as int));
    }
    r
}

/// Appends the characters of `src` to `dst`.
pub fn push_all(dst: &mut Vec<char>, src: &Vec<char>)
    ensures
        final(dst)@ == old(dst)@ + src@,
{
    let mut i: usize = 0;
    while i < src.len()
        invariant
            i <= src.len(),
            dst@ == old(dst)@ + src@.take(i as int),
        decreases src.len() - i,
    {
        dst.push(src[i]);
        i = i + 1;
        assert(dst@ =~= old(dst)@ + src@.take(i as int));
    }
    assert(src@.take(src.len() as int) =~= src@);
}

/// Appends the characters of `s` to `dst`.
pub fn push_str(dst: &mut Vec<char>, s: &str)
    ensures
        final(dst)@ == old(dst)@ + s@,
{
    let cs = chars_of(s);
    push_all(dst, &cs);
}

/// Whether two character sequences are equal.
pub fn chars_eq(a: &Vec<char>, b: &Vec<char>) -> (r: bool)
    ensures
        r == (a@ == b@),
{
    if a.len() != b.len() {
        return false;
    }
    let mut i: usize = 0;
    while i < a.len()
        invariant
            a.len() == b.len(),
            i <= a.len(),
            forall|j: int| 0 <= j < i ==> a@[j] == b@[j],
        decreases a.len() - i,
    {
        if a[i] != b[i] {
            return false;
        }
        i = i + 1;
    }
    assert(a@ =~= b@);
    true
}

/// Whether `v` equals the string `s`.
pub fn chars_eq_str(v: &Vec<char>, s: &str) -> (r: bool)
    ensures
        r == (v@ == s@),
{
    let cs = chars_of(s);
    chars_eq(v, &cs)
}

/// `str::trim_end`.
pub fn trim_end_chars(v: &Vec<char>) -> (r: Vec<char>)
    ensures
        r@ == trim_end(v@),
{
    let mut k = v.len();
    assert(v@.take(k as int) =~= v@);
    while k > 0 && is_whitespace(v[k - 1])
        invariant
            k <= v.len(),
            trim_end(v@) == trim_end(v@.take(k as int)),
        decreases k,
    {
        assert(v@.take(k as int).drop_last() =~= v@.take(k - 1));
        k = k - 1;
    }
    slice_chars(v, 0, k)
}

/// `str::trim_start`.
pub fn trim_start_chars(v: &Vec<char>) -> (r: Vec<char>)
    ensures
        r@ == trim_start(v@),
{
    let mut k: usize = 0;
    assert(v@.skip(0) =~= v@);
    while k < v.len() && is_whitespace(v[k])
        invariant
            k <= v.len(),
            trim_start(v@) == trim_start(v@.skip(k as int)),
        decreases v.len() - k,
    {
        assert(v@.skip(k as int).drop_first() =~= v@.skip(k + 1));
        k = k + 1;
    }
    assert(v@.skip(k as int) =~= v@.subrange(k as int, v.len() as int));
    slice_chars(v, k, v.len())
}

/// `str::trim`.
pub fn trim_chars(v: &Vec<char>) -> (r: Vec<char>)
    ensures
        r@ == trim(v@),
{
    let e = trim_end_chars(v);
    trim_start_chars(&e)
}

/// Index of the first `c` in `v`, or `v.len()`.
pub fn find_char(v: &Vec<char>, c: char) -> (k: usize)
    ensures
        k == index_of(v@, c),
        k <= v.len(),
{
    let mut k: usize = 0;
    while k < v.len() && v[k] != c
        invariant
            k <= v.len(),
            forall|j: int| 0 <= j < k ==> v@[j] != c,
        decreases v.len() - k,
    {
        k = k + 1;
    }
    proof {
        lemma_index_of(v@, c, k as int);
    }
    k
}

/// The lines of `v` (`str::lines`).
pub fn split_lines(v: &Vec<char>) -> (r: Vec<Vec<char>>)
    ensures
        texts(r@) == lines(v@),
{
    let mut r: Vec<Vec<char>> = Vec::new();
    let mut start: usize = 0;
    assert(v@.skip(0) =~= v@);
    assert(texts(r@) =~= Seq::<Seq<char>>::empty());
    while start < v.len()
        invariant
            start <= v.len(),
            lines(v@) == texts(r@) + lines(v@.skip(start as int)),
        decreases v.len() - start,
    {
        let rest = slice_chars(v, start, v.len());
        assert(rest@ =~= v@.skip(start as int));
        let k = find_char(&rest, '\n');
        if k >= rest.len() {
            let ghost old_r = texts(r@);
            r.push(rest);
            assert(texts(r@) =~= old_r.push(v@.skip(start as int)));
            assert(v@.skip(v.len() as int) =~= Seq::<char>::empty());
            start = v.len();
        } else {
            let mut line = slice_chars(&rest, 0, k);
            if k > 0 && line[k - 1] == '\r' {
                line = slice_chars(&rest, 0, k - 1);
                assert(line@ =~= rest@.take(k as int).drop_last());
            }
            assert(line@ == strip_cr(rest@.take(k as int)));
            let ghost old_r = texts(r@);
            r.push(line);
            assert(texts(r@) =~= old_r.push(line@));
            assert(rest@.skip(k + 1) =~= v@.skip(start + k + 1));
            start = start + k + 1;
            assert(old_r + lines(rest@) =~= texts(r@) + lines(v@.skip(start as int)));
        }
    }
    assert(v@.skip(start as int) =~= Seq::<char>::empty());
    assert(texts(r@) + Seq::<Seq<char>>::empty() =~= texts(r@));
    r
}

/// The pieces of `v` between occurrences of `sep` (`str::split`).
pub fn split_chars(v: &Vec<char>, sep: char) -> (r: Vec<Vec<char>>)
    ensures
        texts(r@) == split_on(v@, sep),
{
    let mut r: Vec<Vec<char>> = Vec::new();
    let mut rest = slice_chars(v, 0, v.len());
    assert(rest@ =~= v@);
    assert(texts(r@) =~= Seq::<Seq<char>>::empty());
    loop
        invariant_except_break
            split_on(v@, sep) == texts(r@) + split_on(rest@, sep),
        ensures
            texts(r@) == split_on(v@, sep),
        decreases rest.len(),
    {
        let k = find_char(&rest, sep);
        if k >= rest.len() {
            let ghost old_r = texts(r@);
            let ghost last = rest@;
            r.push(rest);
            assert(texts(r@) =~= old_r.push(last));
            assert(old_r + seq![last] =~= old_r.push(last));
            break ;
        } else {
            let piece = slice_chars(&rest, 0, k);
            let tail = slice_chars(&rest, k + 1, rest.len());
            assert(tail@ =~= rest@.skip(k + 1));
            let ghost old_r = texts(r@);
            r.push(piece);
            assert(texts(r@) =~= old_r.push(piece@));
            assert(old_r + split_on(rest@, sep) =~= texts(r@) + split_on(tail@, sep));
            rest = tail;
        }
    }
    r
}

/// The number of lines of `v` (`str::lines().count()`).
pub fn line_count(v: &Vec<char>) -> (n: usize)
    ensures
        n == lines(v@).len(),
{
    let ls = split_lines(v);
    ls.len()
}

/// Appends `parts` joined by `sep` to `out`.
pub fn push_joined(out: &mut Vec<char>, parts: &Vec<String>, sep: char)
    ensures
        final(out)@ == old(out)@ + joined(strs(parts@), sep),
{
    let mut i: usize = 0;
    assert(strs(parts@).take(0) =~= Seq::<Seq<char>>::empty());
    assert(old(out)@ + joined(strs(parts@).take(0), sep) =~= old(out)@);
    while i < parts.len()
        invariant
            i <= parts.len(),
            out@ == old(out)@ + joined(strs(parts@).take(i as int), sep),
        decreases parts.len() - i,
    {
        let ghost prev = out@;
        if i > 0 {
            out.push(sep);
        }
        push_str(out, parts[i].as_str());
        let ghost t = strs(parts@).take(i + 1);
        assert(t.drop_last() =~= strs(parts@).take(i as int));
        assert(t.last() == parts@[i as int]@);
        i = i + 1;
        if i == 1 {
            assert(t.len() == 1 && t[0] == parts@[0]@);
        }
        assert(out@ =~= old(out)@ + joined(strs(parts@).take(i as int), sep));
    }
    assert(strs(parts@).take(parts.len() as int) =~= strs(parts@));
}

/// The decimal digit for `d < 10`.
pub fn digit(d: u64) -> (c: char)
    requires
        d < 10,
    ensures
        c == digit_char(d as nat),
{
    ((d as u8) + 48) as char
}

/// The decimal representation of `n` (`{}` on an unsigned integer).
pub fn decimal(n: u64) -> (r: Vec<char>)
    ensures
        r@ == dec_digits(n as nat),
    decreases n,
{
    if n < 10 {
        let mut r: Vec<char> = Vec::new();
        r.push(digit(n));
        assert(r@ =~= seq![digit_char(n as nat)]);
        r
    } else {
        let mut r = decimal(n / 10);
        r.push(digit(n % 10));
        r
    }
}

/// The decimal representation of `n` padded with zeros to `width` characters.
pub fn decimal_padded(n: u64, width: usize) -> (r: Vec<char>)
    ensures
        r@ == zero_pad(dec_digits(n as nat), width as nat),
{
    let d = decimal(n);
    if d.len() >= width {
        d
    } else {
        let mut r: Vec<char> = Vec::new();
        let pad = width - d.len();
        let mut i: usize = 0;
        while i < pad
            invariant
                i <= pad,
                r@ == Seq::new(i as nat, |j: int| '0'),
            decreases pad - i,
        {
            r.push('0');
            i = i + 1;
            assert(r@ =~= Seq::new(i as nat, |j: int| '0'));
        }
        push_all(&mut r, &d);
        r
    }
}

} // verus!
