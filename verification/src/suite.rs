//! The decisions about suites: which suites a run names, which files found
//! under a suite's directory are its tests, and whether the suite passed.

use vstd::prelude::*;
use crate::order::{
    comps, lemma_filter_commutes_with_sort, lemma_filter_twice, lemma_path_order_total, path_order,
    path_views, sort_paths,
};
use vstd::relations::sorted_by;
use crate::text::{
    chars_eq, chars_eq_str, chars_of, joined, push_joined, slice_chars, split_chars, split_on,
    string_of, strs, texts, trim, trim_chars,
};

verus! {

// ---------------------------------------------------------------------------
// Which suites to run
// ---------------------------------------------------------------------------

/// The suite names of a comma-separated list: each piece trimmed, blank
/// pieces dropped.
pub open spec fn suite_names_spec(list: Seq<char>) -> Seq<Seq<char>> {
    split_on(list, ',').map_values(|p: Seq<char>| trim(p)).filter(|p: Seq<char>| p.len() > 0)
}

/// The suite names of a comma-separated list such as `main,binlog`.
pub fn suite_names(list: &str) -> (r: Vec<String>)
    ensures
        strs(r@) == suite_names_spec(list@),
{
    let text = chars_of(list);
    let pieces = split_chars(&text, ',');
    let ghost trimmed = split_on(list@, ',').map_values(|p: Seq<char>| trim(p));
    let ghost pred = |p: Seq<char>| p.len() > 0;
    let mut names: Vec<String> = Vec::new();
    let mut i: usize = 0;
    proof {
        reveal_with_fuel(Seq::filter, 1);
        assert(trimmed.take(0) =~= Seq::<Seq<char>>::empty());
        assert(strs(names@) =~= trimmed.take(0).filter(pred));
    }
    while i < pieces.len()
        invariant
            i <= pieces.len(),
            texts(pieces@) == split_on(list@, ','),
            trimmed == split_on(list@, ',').map_values(|p: Seq<char>| trim(p)),
            pred == (|p: Seq<char>| p.len() > 0),
            strs(names@) == trimmed.take(i as int).filter(pred),
        decreases pieces.len() - i,
    {
        let t = trim_chars(&pieces[i]);
        let ghost before = strs(names@);
        proof {
            reveal_with_fuel(Seq::filter, 1);
            assert(trimmed[i as int] == t@);
            assert(trimmed.take(i + 1).drop_last() =~= trimmed.take(i as int));
            assert(trimmed.take(i + 1).last() == t@);
        }
        if t.len() > 0 {
            names.push(string_of(&t));
            assert(strs(names@) =~= before.push(t@));
        }
        i = i + 1;
    }
    assert(trimmed.take(i as int) =~= trimmed);
    names
}

/// The directory that holds the tests of every suite.
pub open spec fn tests_root() -> Seq<char> {
    "tests"@
}

/// The path, as its components, of the directory searched for `suite`:
/// `all` names the whole tests directory, any other suite its directory
/// under it.
pub open spec fn suite_dir_spec(suite: Seq<char>) -> Seq<Seq<char>> {
    if suite == "all"@ {
        seq![tests_root()]
    } else {
        seq![tests_root(), suite]
    }
}

/// The directory searched for the tests of `suite`, as path components.
pub fn suite_dir(suite: &str) -> (r: Vec<String>)
    ensures
        strs(r@) == suite_dir_spec(suite@),
{
    let name = chars_of(suite);
    let mut r: Vec<String> = Vec::new();
    r.push(String::from_str("tests"));
    if !chars_eq_str(&name, "all") {
        r.push(String::from_str(suite));
    }
    assert(strs(r@) =~= suite_dir_spec(suite@));
    r
}

// ---------------------------------------------------------------------------
// Which files of a suite are tests
// ---------------------------------------------------------------------------

/// Index of the last `c` in `s`, or `-1`.
pub open spec fn last_index_of(s: Seq<char>, c: char) -> int
    decreases s.len(),
{
    if s.len() == 0 {
        -1
    } else if s.last() == c {
        s.len() - 1
    } else {
        last_index_of(s.drop_last(), c)
    }
}

/// The extension of a file name (`Path::extension`): the text after the
/// last `.`; none when there is no `.`, when the only `.` starts the name,
/// or for `..`.
pub open spec fn extension(name: Seq<char>) -> Option<Seq<char>> {
    if name == ".."@ {
        None
    } else {
        let k = last_index_of(name, '.');
        if k <= 0 {
            None
        } else {
            Some(name.skip(k + 1))
        }
    }
}

/// Whether `needle` occurs in `hay` at index `i`.
pub open spec fn occurs_at(hay: Seq<char>, needle: Seq<char>, i: int) -> bool {
    0 <= i && i + needle.len() <= hay.len() && hay.subrange(i, i + needle.len()) == needle
}

/// Whether `needle` occurs in `hay`.
pub open spec fn contains_text(hay: Seq<char>, needle: Seq<char>) -> bool {
    exists|i: int| #[trigger] occurs_at(hay, needle, i)
}

/// `last_index_of` is `-1` or a position holding `c`.
proof fn lemma_last_index_of_bounds(s: Seq<char>, c: char)
    ensures
        -1 <= last_index_of(s, c) < s.len(),
    decreases s.len(),
{
    if s.len() > 0 && s.last() != c {
        lemma_last_index_of_bounds(s.drop_last(), c);
    }
}

/// Whether the file at path `p` (its components) is a test of the run: its
/// extension is `test` and, when a filter is given, the path written with
/// `/` separators contains it.
pub open spec fn selected(p: Seq<Seq<char>>, filter: Option<Seq<char>>) -> bool {
    &&& p.len() > 0
    &&& extension(p.last()) == Some("test"@)
    &&& match filter {
        Some(f) => contains_text(joined(p, '/'), f),
        None => true,
    }
}

/// The last `.` of a name `<stem>.test` is the one before `test`.
proof fn lemma_test_name_extension(stem: Seq<char>)
    requires
        stem.len() > 0,
    ensures
        extension(stem + ".test"@) == Some("test"@),
{
    reveal_strlit(".test");
    reveal_strlit("test");
    reveal_strlit("..");
    let name = stem + ".test"@;
    let n = stem.len() as int;
    assert(name.len() == n + 5);
    assert(name != ".."@);
    let s4 = name.drop_last();
    let s3 = s4.drop_last();
    let s2 = s3.drop_last();
    let s1 = s2.drop_last();
    assert(name.last() == 't');
    assert(s4.last() == 's');
    assert(s3.last() == 'e');
    assert(s2.last() == 't');
    assert(s1.last() == '.');
    assert(last_index_of(s1, '.') == n);
    assert(last_index_of(s2, '.') == n);
    assert(last_index_of(s3, '.') == n);
    assert(last_index_of(s4, '.') == n);
    assert(last_index_of(name, '.') == n);
    assert(name.skip(n + 1) =~= "test"@);
}

/// Every file named `<stem>.test` (with a non-empty stem) is a test of a run
/// without a filter; under a filter it is a test exactly when the filter
/// occurs somewhere in its path written with `/` separators, at any
/// position, not only at the start of a component.
pub proof fn lemma_filter_is_a_substring_test(dirs: Seq<Seq<char>>, stem: Seq<char>, f: Seq<char>)
    requires
        stem.len() > 0,
    ensures
        ({
            let p = dirs.push(stem + ".test"@);
            let h = joined(p, '/');
            &&& selected(p, None)
            &&& selected(p, Some(f)) <==> exists|i: int|
                0 <= i && i + f.len() <= h.len() && #[trigger] h.subrange(i, i + f.len()) == f
        }),
{
    lemma_test_name_extension(stem);
    let p = dirs.push(stem + ".test"@);
    assert(p.last() == stem + ".test"@);
    let h = joined(p, '/');
    if exists|i: int| 0 <= i && i + f.len() <= h.len() && #[trigger] h.subrange(i, i + f.len()) == f {
        let i = choose|i: int|
            0 <= i && i + f.len() <= h.len() && #[trigger] h.subrange(i, i + f.len()) == f;
        assert(occurs_at(h, f, i));
    }
}

/// A non-negative `last_index_of` is a position holding `c`.
proof fn lemma_last_index_of_holds(s: Seq<char>, c: char)
    ensures
        last_index_of(s, c) >= 0 ==> s[last_index_of(s, c)] == c,
    decreases s.len(),
{
    if s.len() > 0 && s.last() != c {
        lemma_last_index_of_holds(s.drop_last(), c);
        lemma_last_index_of_bounds(s.drop_last(), c);
        if last_index_of(s, c) >= 0 {
            assert(s.drop_last()[last_index_of(s, c)] == s[last_index_of(s, c)]);
        }
    }
}

/// Only files named `<stem>.test`, with a non-empty stem, are tests: a
/// path is selected (with or without a filter) only if its last component
/// has that form.
pub proof fn lemma_only_test_files_are_selected(p: Seq<Seq<char>>, filter: Option<Seq<char>>)
    requires
        selected(p, filter),
    ensures
        p.len() > 0,
        exists|stem: Seq<char>| stem.len() > 0 && p.last() == stem + ".test"@,
{
    reveal_strlit(".test");
    reveal_strlit("test");
    let name = p.last();
    let k = last_index_of(name, '.');
    lemma_last_index_of_bounds(name, '.');
    lemma_last_index_of_holds(name, '.');
    assert(extension(name) == Some("test"@));
    assert(name != ".."@);
    assert(k > 0);
    assert(Some(name.skip(k + 1)) == Some("test"@));
    assert(name.skip(k + 1) == "test"@);
    assert(name.skip(k + 1).len() == 4);
    let stem = name.take(k);
    let t = stem + ".test"@;
    assert(name.len() == k + 5);
    assert forall|j: int| 0 <= j < name.len() implies #[trigger] name[j] == t[j] by {
        if j > k {
            assert(name[j] == name.skip(k + 1)[j - k - 1]);
        }
    }
    assert(name =~= t);
}

/// [`selected`] as a predicate on paths.
pub open spec fn selection(filter: Option<Seq<char>>) -> spec_fn(Seq<Seq<char>>) -> bool {
    |p: Seq<Seq<char>>| selected(p, filter)
}

/// The view of an optional filter.
pub open spec fn filter_view(filter: Option<&str>) -> Option<Seq<char>> {
    match filter {
        Some(f) => Some(f@),
        None => None,
    }
}

/// Index of the last `c` in `v`, if any.
fn find_last(v: &Vec<char>, c: char) -> (r: Option<usize>)
    ensures
        match r {
            Some(k) => k == last_index_of(v@, c) && k < v.len(),
            None => last_index_of(v@, c) == -1,
        },
{
    let mut k: usize = v.len();
    assert(v@.take(k as int) =~= v@);
    while k > 0 && v[k - 1] != c
        invariant
            k <= v.len(),
            last_index_of(v@, c) == last_index_of(v@.take(k as int), c),
        decreases k,
    {
        assert(v@.take(k as int).drop_last() =~= v@.take(k - 1));
        k = k - 1;
    }
    if k == 0 {
        None
    } else {
        Some(k - 1)
    }
}

/// Whether `v` has the extension `test`.
fn has_test_extension(v: &Vec<char>) -> (r: bool)
    ensures
        r == (extension(v@) == Some("test"@)),
{
    if chars_eq_str(v, "..") {
        return false;
    }
    match find_last(v, '.') {
        None => false,
        Some(k) => {
            if k == 0 {
                return false;
            }
            proof {
                lemma_last_index_of_bounds(v@, '.');
            }
            let ext = slice_chars(v, k + 1, v.len());
            assert(ext@ =~= v@.skip(k + 1));
            chars_eq_str(&ext, "test")
        },
    }
}

/// Whether `needle` occurs in `hay`.
fn contains_chars(hay: &Vec<char>, needle: &Vec<char>) -> (r: bool)
    ensures
        r == contains_text(hay@, needle@),
{
    if needle.len() > hay.len() {
        return false;
    }
    let last = hay.len() - needle.len();
    let mut i: usize = 0;
    loop
        invariant
            i <= last,
            last == hay.len() - needle.len(),
            forall|j: int| 0 <= j < i ==> !#[trigger] occurs_at(hay@, needle@, j),
        ensures
            forall|j: int| 0 <= j <= last ==> !#[trigger] occurs_at(hay@, needle@, j),
        decreases last - i,
    {
        let piece = slice_chars(hay, i, i + needle.len());
        if chars_eq(&piece, needle) {
            assert(occurs_at(hay@, needle@, i as int));
            return true;
        }
        assert(!occurs_at(hay@, needle@, i as int));
        if i == last {
            break ;
        }
        i = i + 1;
    }
    assert forall|j: int| !#[trigger] occurs_at(hay@, needle@, j) by {
        if j > last {
            assert(!occurs_at(hay@, needle@, j));
        }
    }
    false
}

/// Whether the file at path `p` is a test of the run (see [`selected`]).
fn is_selected(p: &Vec<String>, filter: Option<&str>) -> (r: bool)
    ensures
        r == selected(comps(*p), filter_view(filter)),
{
    if p.len() == 0 {
        return false;
    }
    let name = chars_of(p[p.len() - 1].as_str());
    assert(comps(*p).last() == name@);
    if !has_test_extension(&name) {
        return false;
    }
    match filter {
        None => true,
        Some(f) => {
            let mut text: Vec<char> = Vec::new();
            push_joined(&mut text, p, '/');
            assert(text@ =~= joined(comps(*p), '/'));
            let needle = chars_of(f);
            contains_chars(&text, &needle)
        },
    }
}

/// The tests of a suite among the files found under its directory (each
/// path given as its components): the `.test` files whose path contains the
/// filter, if one is given, sorted by path.
pub fn select_tests(candidates: Vec<Vec<String>>, filter: Option<&str>) -> (r: Vec<Vec<String>>)
    ensures
        path_views(r@) == path_views(candidates@).filter(selection(filter_view(filter))).sort_by(
            path_order(),
        ),
{
    let ghost src = path_views(candidates@);
    let ghost pred = selection(filter_view(filter));
    let n = candidates.len();
    let mut rest = candidates;
    let mut kept: Vec<Vec<String>> = Vec::new();
    let mut i: usize = 0;
    proof {
        reveal_with_fuel(Seq::filter, 1);
        assert(src.take(0) =~= Seq::<Seq<Seq<char>>>::empty());
        assert(path_views(kept@) =~= src.take(0).filter(pred));
    }
    while rest.len() > 0
        invariant
            i + rest@.len() == src.len(),
            src.len() == n,
            pred == selection(filter_view(filter)),
            forall|j: int| 0 <= j < rest@.len() ==> #[trigger] comps(rest@[j]) == src[i + j],
            path_views(kept@) == src.take(i as int).filter(pred),
        decreases rest@.len(),
    {
        assert(comps(rest@[0]) == src[i + 0]);
        let ghost prev_rest = rest@;
        let x = rest.remove(0);
        assert forall|j: int| 0 <= j < rest@.len() implies #[trigger] comps(rest@[j]) == src[(i + 1)
            + j] by {
            assert(rest@[j] == prev_rest[j + 1]);
        }
        let keep = is_selected(&x, filter);
        let ghost xv = comps(x);
        let ghost before = path_views(kept@);
        proof {
            reveal_with_fuel(Seq::filter, 1);
            assert(src.take(i + 1).drop_last() =~= src.take(i as int));
            assert(src.take(i + 1).last() == xv);
        }
        if keep {
            kept.push(x);
            assert(path_views(kept@) =~= before.push(xv));
        }
        i = i + 1;
    }
    assert(src.take(i as int) =~= src);
    sort_paths(kept)
}

/// The tests of a suite are exactly its selected files, each as often as it
/// was found, in path order.
pub proof fn lemma_selection_is_sorted_and_exact(
    found: Seq<Seq<Seq<char>>>,
    filter: Option<Seq<char>>,
)
    ensures
        ({
            let kept = found.filter(selection(filter));
            let r = kept.sort_by(path_order());
            &&& sorted_by(r, path_order())
            &&& r.to_multiset() == kept.to_multiset()
            &&& forall|i: int| 0 <= i < r.len() ==> selected(#[trigger] r[i], filter)
        }),
{
    let kept = found.filter(selection(filter));
    lemma_path_order_total();
    kept.lemma_sort_by_ensures(path_order());
    let r = kept.sort_by(path_order());
    assert forall|i: int| 0 <= i < r.len() implies selected(#[trigger] r[i], filter) by {
        assert(r.contains(r[i]));
        assert(kept.contains(r[i]));
        let j = choose|j: int| 0 <= j < kept.len() && kept[j] == r[i];
        found.lemma_filter_pred(selection(filter), j);
    }
}

/// Whether the path `p` written with `/` separators contains `f`.
pub open spec fn path_contains(f: Seq<char>) -> spec_fn(Seq<Seq<char>>) -> bool {
    |p: Seq<Seq<char>>| contains_text(joined(p, '/'), f)
}

/// An empty filter selects the same tests as no filter.
pub proof fn lemma_empty_filter_selects_all(found: Seq<Seq<Seq<char>>>)
    ensures
        found.filter(selection(Some(Seq::<char>::empty()))).sort_by(path_order()) == found.filter(
            selection(None),
        ).sort_by(path_order()),
{
    assert forall|p: Seq<Seq<char>>| #[trigger] selection(Some(Seq::<char>::empty()))(p)
        == selection(None)(p) by {
        let hay = joined(p, '/');
        assert(hay.subrange(0, 0) =~= Seq::<char>::empty());
        assert(occurs_at(hay, Seq::<char>::empty(), 0));
    }
    assert(selection(Some(Seq::<char>::empty())) =~= selection(None));
}

/// Filtering commutes with the path sort: the tests under filter `f` are
/// the tests without a filter, in the same order, keeping those whose path
/// contains `f`.
pub proof fn lemma_filter_is_applied_after_sorting(found: Seq<Seq<Seq<char>>>, f: Seq<char>)
    ensures
        found.filter(selection(Some(f))).sort_by(path_order()) == found.filter(
            selection(None),
        ).sort_by(path_order()).filter(path_contains(f)),
{
    lemma_path_order_total();
    lemma_filter_twice(found, selection(None), path_contains(f), selection(Some(f)));
    lemma_filter_commutes_with_sort(found.filter(selection(None)), path_contains(f), path_order());
}

// ---------------------------------------------------------------------------
// Tallying a suite
// ---------------------------------------------------------------------------

/// What became of one test file of a suite.
#[derive(Debug, Clone, Copy, PartialEq, Eq, Structural)]
pub enum TestResult {
    Skipped,
    Passed,
    Failed,
}

/// The counts of a suite's results.
#[derive(Debug, Clone, Copy)]
pub struct SuiteSummary {
    pub passed: usize,
    pub failed: usize,
    pub skipped: usize,
}

/// The number of results in `rs` that are `k`.
pub open spec fn count_of(rs: Seq<TestResult>, k: TestResult) -> nat
    decreases rs.len(),
{
    if rs.len() == 0 {
        0
    } else {
        count_of(rs.drop_last(), k) + if rs.last() == k {
            1nat
        } else {
            0nat
        }
    }
}

/// Counts the results of a suite.
pub fn summarize(results: &Vec<TestResult>) -> (s: SuiteSummary)
    ensures
        s.passed == count_of(results@, TestResult::Passed),
        s.failed == count_of(results@, TestResult::Failed),
        s.skipped == count_of(results@, TestResult::Skipped),
{
    let mut s = SuiteSummary { passed: 0, failed: 0, skipped: 0 };
    let mut i: usize = 0;
    assert(results@.take(0) =~= Seq::<TestResult>::empty());
    while i < results.len()
        invariant
            i <= results.len(),
            s.passed == count_of(results@.take(i as int), TestResult::Passed),
            s.failed == count_of(results@.take(i as int), TestResult::Failed),
            s.skipped == count_of(results@.take(i as int), TestResult::Skipped),
        decreases results.len() - i,
    {
        proof {
            lemma_every_test_counted_once(results@.take(i as int));
            assert(results@.take(i + 1).drop_last() =~= results@.take(i as int));
        }
        match results[i] {
            TestResult::Passed => {
                s.passed = s.passed + 1;
            },
            TestResult::Failed => {
                s.failed = s.failed + 1;
            },
            TestResult::Skipped => {
                s.skipped = s.skipped + 1;
            },
        }
        i = i + 1;
    }
    assert(results@.take(results.len() as int) =~= results@);
    s
}

/// A suite fails exactly when one of its tests failed; the error carries
/// the number of failed tests.
pub fn suite_verdict(s: &SuiteSummary) -> (r: Result<(), usize>)
    ensures
        s.failed == 0 ==> r == Ok::<(), usize>(()),
        s.failed > 0 ==> r == Err::<(), usize>(s.failed),
{
    if s.failed > 0 {
        Err(s.failed)
    } else {
        Ok(())
    }
}

/// Every test file of a suite is counted exactly once.
pub proof fn lemma_every_test_counted_once(rs: Seq<TestResult>)
    ensures
        count_of(rs, TestResult::Passed) + count_of(rs, TestResult::Failed) + count_of(
            rs,
            TestResult::Skipped,
        ) == rs.len(),
    decreases rs.len(),
{
    if rs.len() > 0 {
        lemma_every_test_counted_once(rs.drop_last());
    }
}

} // verus!
