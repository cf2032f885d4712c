//! The lexicographic order of text (the order of `str`'s `Ord`, which on
//! UTF-8 agrees with comparing code points one by one) and a verified sort.

use vstd::prelude::*;
use vstd::multiset::Multiset;
use vstd::relations::{sorted_by, total_ordering};
use vstd::seq_lib::{lemma_sorted_unique, to_multiset_insert};
use crate::text::{chars_eq, chars_of, strs, texts};

verus! {

/// `a <= b` in lexicographic order of code points.
pub open spec fn lex_le(a: Seq<char>, b: Seq<char>) -> bool
    decreases a.len(),
{
    if a.len() == 0 {
        true
    } else if b.len() == 0 {
        false
    } else if a[0] != b[0] {
        a[0] < b[0]
    } else {
        lex_le(a.drop_first(), b.drop_first())
    }
}

/// [`lex_le`] as a relation.
pub open spec fn text_order() -> spec_fn(Seq<char>, Seq<char>) -> bool {
    |a: Seq<char>, b: Seq<char>| lex_le(a, b)
}

/// `a` is `b` or begins it.
pub open spec fn is_prefix_of(a: Seq<char>, b: Seq<char>) -> bool {
    a.len() <= b.len() && b.take(a.len() as int) == a
}

/// `a` and `b` agree before position `i`, and at `i` the character of `a`
/// is the smaller code point.
pub open spec fn smaller_at(a: Seq<char>, b: Seq<char>, i: int) -> bool {
    0 <= i < a.len() && i < b.len() && a.take(i) == b.take(i) && a[i] < b[i]
}

proof fn lemma_lex_le_meaning(a: Seq<char>, b: Seq<char>)
    ensures
        lex_le(a, b) <==> (is_prefix_of(a, b) || exists|i: int| #[trigger] smaller_at(a, b, i)),
    decreases a.len(),
{
    if a.len() == 0 {
        assert(b.take(0) =~= a);
    } else if b.len() == 0 {
        assert forall|i: int| !#[trigger] smaller_at(a, b, i) by {}
    } else if a[0] != b[0] {
        if a[0] < b[0] {
            assert(a.take(0) =~= b.take(0));
            assert(smaller_at(a, b, 0));
        } else {
            if is_prefix_of(a, b) {
                assert(b.take(a.len() as int)[0] == b[0]);
            }
            assert forall|i: int| !#[trigger] smaller_at(a, b, i) by {
                if smaller_at(a, b, i) && i > 0 {
                    assert(a.take(i)[0] == b.take(i)[0]);
                }
            }
        }
    } else {
        let a1 = a.drop_first();
        let b1 = b.drop_first();
        lemma_lex_le_meaning(a1, b1);
        if is_prefix_of(a1, b1) {
            assert(b.take(a.len() as int) =~= seq![b[0]] + b1.take(a1.len() as int));
            assert(a =~= seq![a[0]] + a1);
        }
        if is_prefix_of(a, b) {
            assert(b1.take(a1.len() as int) =~= b.take(a.len() as int).drop_first());
        }
        assert forall|i: int| smaller_at(a1, b1, i) implies #[trigger] smaller_at(a, b, i + 1) by {
            assert(a.take(i + 1) =~= seq![a[0]] + a1.take(i));
            assert(b.take(i + 1) =~= seq![b[0]] + b1.take(i));
        }
        assert forall|i: int| #[trigger] smaller_at(a, b, i) implies smaller_at(a1, b1, i - 1) by {
            assert(i != 0);
            assert(a1.take(i - 1) =~= a.take(i).drop_first());
            assert(b1.take(i - 1) =~= b.take(i).drop_first());
        }
        if exists|i: int| #[trigger] smaller_at(a1, b1, i) {
            let i = choose|i: int| #[trigger] smaller_at(a1, b1, i);
            assert(smaller_at(a, b, i + 1));
        }
        if exists|i: int| #[trigger] smaller_at(a, b, i) {
            let i = choose|i: int| #[trigger] smaller_at(a, b, i);
            assert(smaller_at(a1, b1, i - 1));
        }
    }
}

/// Rows are ordered as `str` orders text: `a` sorts before (or with) `b`
/// exactly when `a` begins `b`, or when at the first position where they
/// differ `a` has the smaller code point. So a proper prefix sorts before
/// every longer text it begins, and never after it.
pub proof fn lemma_text_order_is_lexicographic(a: Seq<char>, b: Seq<char>)
    ensures
        text_order()(a, b) <==> (is_prefix_of(a, b) || exists|i: int| #[trigger] smaller_at(a, b, i)),
        a.len() < b.len() && b.take(a.len() as int) == a ==> text_order()(a, b) && !text_order()(
            b,
            a,
        ),
{
    lemma_lex_le_meaning(a, b);
    lemma_lex_le_meaning(b, a);
    if a.len() < b.len() && b.take(a.len() as int) == a {
        assert forall|i: int| !#[trigger] smaller_at(b, a, i) by {
            if smaller_at(b, a, i) {
                assert(b[i] == b.take(a.len() as int)[i]);
            }
        }
    }
}

pub proof fn lemma_lex_reflexive(a: Seq<char>)
    ensures
        lex_le(a, a),
    decreases a.len(),
{
    if a.len() > 0 {
        lemma_lex_reflexive(a.drop_first());
    }
}

pub proof fn lemma_lex_antisymmetric(a: Seq<char>, b: Seq<char>)
    requires
        lex_le(a, b),
        lex_le(b, a),
    ensures
        a == b,
    decreases a.len(),
{
    if a.len() > 0 && b.len() > 0 {
        lemma_lex_antisymmetric(a.drop_first(), b.drop_first());
        assert(a =~= seq![a[0]] + a.drop_first());
        assert(b =~= seq![b[0]] + b.drop_first());
    } else {
        assert(a =~= b);
    }
}

pub proof fn lemma_lex_transitive(a: Seq<char>, b: Seq<char>, c: Seq<char>)
    requires
        lex_le(a, b),
        lex_le(b, c),
    ensures
        lex_le(a, c),
    decreases a.len(),
{
    if a.len() > 0 && b.len() > 0 && c.len() > 0 && a[0] == b[0] && b[0] == c[0] {
        lemma_lex_transitive(a.drop_first(), b.drop_first(), c.drop_first());
    }
}

pub proof fn lemma_lex_total(a: Seq<char>, b: Seq<char>)
    ensures
        lex_le(a, b) || lex_le(b, a),
    decreases a.len(),
{
    if a.len() > 0 && b.len() > 0 && a[0] == b[0] {
        lemma_lex_total(a.drop_first(), b.drop_first());
    }
}

/// The lexicographic order of text is a total order.
pub proof fn lemma_text_order_total()
    ensures
        total_ordering(text_order()),
{
    let r = text_order();
    assert forall|x: Seq<char>| #[trigger] r(x, x) by {
        lemma_lex_reflexive(x);
    }
    assert forall|x: Seq<char>, y: Seq<char>| #[trigger] r(x, y) && #[trigger] r(y, x) implies x
        == y by {
        lemma_lex_antisymmetric(x, y);
    }
    assert forall|x: Seq<char>, y: Seq<char>, z: Seq<char>| #[trigger] r(x, y) && #[trigger] r(
        y,
        z,
    ) implies r(x, z) by {
        lemma_lex_transitive(x, y, z);
    }
    assert forall|x: Seq<char>, y: Seq<char>| #[trigger] r(x, y) || #[trigger] r(y, x) by {
        lemma_lex_total(x, y);
    }
}

/// `a <= b` in lexicographic order (`str`'s `Ord`).
pub fn lex_le_chars(a: &Vec<char>, b: &Vec<char>) -> (r: bool)
    ensures
        r == lex_le(a@, b@),
{
    let mut i: usize = 0;
    assert(a@.skip(0) =~= a@);
    assert(b@.skip(0) =~= b@);
    loop
        invariant
            i <= a.len(),
            i <= b.len(),
            lex_le(a@, b@) == lex_le(a@.skip(i as int), b@.skip(i as int)),
        decreases a.len() - i,
    {
        if i == a.len() {
            return true;
        }
        if i == b.len() {
            return false;
        }
        assert(a@.skip(i as int)[0] == a@[i as int]);
        assert(b@.skip(i as int)[0] == b@[i as int]);
        if a[i] != b[i] {
            return a[i] < b[i];
        }
        assert(a@.skip(i as int).drop_first() =~= a@.skip(i + 1));
        assert(b@.skip(i as int).drop_first() =~= b@.skip(i + 1));
        i = i + 1;
    }
}

/// The texts of `items`, sorted in lexicographic order: exactly
/// `texts(items).sort_by(text_order())`.
pub fn sort_texts(items: Vec<Vec<char>>) -> (r: Vec<Vec<char>>)
    ensures
        texts(r@) == texts(items@).sort_by(text_order()),
        texts(r@).to_multiset() == texts(items@).to_multiset(),
        sorted_by(texts(r@), text_order()),
{
    proof {
        lemma_text_order_total();
    }
    let ghost src = texts(items@);
    let mut sorted: Vec<Vec<char>> = Vec::new();
    let mut i: usize = 0;
    assert(texts(sorted@) =~= src.take(0));
    while i < items.len()
        invariant
            i <= items.len(),
            src == texts(items@),
            total_ordering(text_order()),
            sorted_by(texts(sorted@), text_order()),
            texts(sorted@).to_multiset() == src.take(i as int).to_multiset(),
        decreases items.len() - i,
    {
        let x = &items[i];
        let mut p: usize = 0;
        while p < sorted.len() && lex_le_chars(&sorted[p], x)
            invariant
                p <= sorted.len(),
                forall|j: int| 0 <= j < p ==> lex_le(#[trigger] sorted@[j]@, x@),
            decreases sorted.len() - p,
        {
            p = p + 1;
        }
        let ghost before = texts(sorted@);
        let xc = x.clone();
        assert(xc@ == x@) by {
            assert(xc@ =~= x@);
        }
        sorted.insert(p, xc);
        assert(texts(sorted@) =~= before.insert(p as int, x@));
        proof {
            to_multiset_insert(before, p as int, x@);
            assert(src.take(i + 1) =~= src.take(i as int).push(x@));
            assert(src.take(i as int).push(x@) =~= src.take(i as int).insert(i as int, x@));
            to_multiset_insert(src.take(i as int), i as int, x@);
            let r = text_order();
            let s = texts(sorted@);
            assert forall|a: int, b: int| 0 <= a < b < s.len() implies #[trigger] r(s[a], s[b]) by {
                if b < p {
                    assert(s[a] == before[a] && s[b] == before[b]);
                } else if b == p {
                    assert(s[a] == before[a]);
                    assert(r(before[a], x@));
                } else if a == p {
                    assert(s[b] == before[b - 1]);
                    assert(!lex_le(before[p as int], x@));
                    lemma_lex_total(before[p as int], x@);
                    if b - 1 > p {
                        assert(r(before[p as int], before[b - 1]));
                    } else {
                        lemma_lex_reflexive(before[p as int]);
                    }
                    lemma_lex_transitive(x@, before[p as int], before[b - 1]);
                } else if a < p {
                    assert(s[a] == before[a] && s[b] == before[b - 1]);
                    assert(r(before[a], before[b - 1]));
                } else {
                    assert(s[a] == before[a - 1] && s[b] == before[b - 1]);
                    assert(r(before[a - 1], before[b - 1]));
                }
            }
        }
        i = i + 1;
    }
    proof {
        assert(src.take(items.len() as int) =~= src);
        src.lemma_sort_by_ensures(text_order());
        lemma_sorted_unique(texts(sorted@), src.sort_by(text_order()), text_order());
    }
    sorted
}

// ---------------------------------------------------------------------------
// The order of paths
// ---------------------------------------------------------------------------

/// `a <= b` for paths given as their components: components are compared
/// one by one, each in lexicographic order, and a path sorts before the
/// paths it is a prefix of (the order of `Path`'s `Ord` on paths made of
/// plain components).
pub open spec fn path_le(a: Seq<Seq<char>>, b: Seq<Seq<char>>) -> bool
    decreases a.len(),
{
    if a.len() == 0 {
        true
    } else if b.len() == 0 {
        false
    } else if a[0] != b[0] {
        lex_le(a[0], b[0])
    } else {
        path_le(a.drop_first(), b.drop_first())
    }
}

/// [`path_le`] as a relation.
pub open spec fn path_order() -> spec_fn(Seq<Seq<char>>, Seq<Seq<char>>) -> bool {
    |a: Seq<Seq<char>>, b: Seq<Seq<char>>| path_le(a, b)
}

/// Path `a` is `b` or its leading components.
pub open spec fn is_path_prefix_of(a: Seq<Seq<char>>, b: Seq<Seq<char>>) -> bool {
    a.len() <= b.len() && b.take(a.len() as int) == a
}

/// Paths `a` and `b` agree before component `i`, and there component `a[i]`
/// is a different text that sorts before `b[i]`.
pub open spec fn path_smaller_at(a: Seq<Seq<char>>, b: Seq<Seq<char>>, i: int) -> bool {
    0 <= i < a.len() && i < b.len() && a.take(i) == b.take(i) && a[i] != b[i] && text_order()(
        a[i],
        b[i],
    )
}

/// Paths are ordered component by component: `a` sorts before (or with) `b`
/// exactly when `a` is `b` or its leading components, or when at the first
/// component where they differ `a`'s component sorts before `b`'s.
pub proof fn lemma_path_order_is_componentwise(a: Seq<Seq<char>>, b: Seq<Seq<char>>)
    ensures
        path_order()(a, b) <==> (is_path_prefix_of(a, b) || exists|i: int|
            #[trigger] path_smaller_at(a, b, i)),
    decreases a.len(),
{
    if a.len() == 0 {
        assert(b.take(0) =~= a);
    } else if b.len() == 0 {
        assert forall|i: int| !#[trigger] path_smaller_at(a, b, i) by {}
    } else if a[0] != b[0] {
        if lex_le(a[0], b[0]) {
            assert(a.take(0) =~= b.take(0));
            assert(path_smaller_at(a, b, 0));
        } else {
            if is_path_prefix_of(a, b) {
                assert(b.take(a.len() as int)[0] == b[0]);
            }
            assert forall|i: int| !#[trigger] path_smaller_at(a, b, i) by {
                if path_smaller_at(a, b, i) && i > 0 {
                    assert(a.take(i)[0] == b.take(i)[0]);
                }
            }
        }
    } else {
        let a1 = a.drop_first();
        let b1 = b.drop_first();
        lemma_path_order_is_componentwise(a1, b1);
        if is_path_prefix_of(a1, b1) {
            assert(b.take(a.len() as int) =~= seq![b[0]] + b1.take(a1.len() as int));
            assert(a =~= seq![a[0]] + a1);
        }
        if is_path_prefix_of(a, b) {
            assert(b1.take(a1.len() as int) =~= b.take(a.len() as int).drop_first());
        }
        assert forall|i: int| path_smaller_at(a1, b1, i) implies #[trigger] path_smaller_at(
            a,
            b,
            i + 1,
        ) by {
            assert(a.take(i + 1) =~= seq![a[0]] + a1.take(i));
            assert(b.take(i + 1) =~= seq![b[0]] + b1.take(i));
        }
        assert forall|i: int| #[trigger] path_smaller_at(a, b, i) implies path_smaller_at(
            a1,
            b1,
            i - 1,
        ) by {
            assert(i != 0);
            assert(a1.take(i - 1) =~= a.take(i).drop_first());
            assert(b1.take(i - 1) =~= b.take(i).drop_first());
        }
        if exists|i: int| #[trigger] path_smaller_at(a1, b1, i) {
            let i = choose|i: int| #[trigger] path_smaller_at(a1, b1, i);
            assert(path_smaller_at(a, b, i + 1));
        }
        if exists|i: int| #[trigger] path_smaller_at(a, b, i) {
            let i = choose|i: int| #[trigger] path_smaller_at(a, b, i);
            assert(path_smaller_at(a1, b1, i - 1));
        }
    }
}

proof fn lemma_path_reflexive(a: Seq<Seq<char>>)
    ensures
        path_le(a, a),
    decreases a.len(),
{
    if a.len() > 0 {
        lemma_path_reflexive(a.drop_first());
    }
}

proof fn lemma_path_antisymmetric(a: Seq<Seq<char>>, b: Seq<Seq<char>>)
    requires
        path_le(a, b),
        path_le(b, a),
    ensures
        a == b,
    decreases a.len(),
{
    if a.len() > 0 && b.len() > 0 {
        if a[0] != b[0] {
            lemma_lex_antisymmetric(a[0], b[0]);
        } else {
            lemma_path_antisymmetric(a.drop_first(), b.drop_first());
            assert(a =~= seq![a[0]] + a.drop_first());
            assert(b =~= seq![b[0]] + b.drop_first());
        }
    } else {
        assert(a =~= b);
    }
}

proof fn lemma_path_transitive(a: Seq<Seq<char>>, b: Seq<Seq<char>>, c: Seq<Seq<char>>)
    requires
        path_le(a, b),
        path_le(b, c),
    ensures
        path_le(a, c),
    decreases a.len(),
{
    if a.len() > 0 && b.len() > 0 && c.len() > 0 {
        if a[0] == b[0] && b[0] == c[0] {
            lemma_path_transitive(a.drop_first(), b.drop_first(), c.drop_first());
        } else if a[0] != b[0] && b[0] != c[0] {
            lemma_lex_transitive(a[0], b[0], c[0]);
            if a[0] == c[0] {
                lemma_lex_antisymmetric(a[0], b[0]);
            }
        }
    }
}

proof fn lemma_path_total(a: Seq<Seq<char>>, b: Seq<Seq<char>>)
    ensures
        path_le(a, b) || path_le(b, a),
    decreases a.len(),
{
    if a.len() > 0 && b.len() > 0 {
        if a[0] == b[0] {
            lemma_path_total(a.drop_first(), b.drop_first());
        } else {
            lemma_lex_total(a[0], b[0]);
        }
    }
}

/// The order of paths is a total order.
pub proof fn lemma_path_order_total()
    ensures
        total_ordering(path_order()),
{
    let r = path_order();
    assert forall|x: Seq<Seq<char>>| #[trigger] r(x, x) by {
        lemma_path_reflexive(x);
    }
    assert forall|x: Seq<Seq<char>>, y: Seq<Seq<char>>| #[trigger] r(x, y) && #[trigger] r(y, x) implies x
        == y by {
        lemma_path_antisymmetric(x, y);
    }
    assert forall|x: Seq<Seq<char>>, y: Seq<Seq<char>>, z: Seq<Seq<char>>| #[trigger] r(x, y) && #[trigger] r(
        y,
        z,
    ) implies r(x, z) by {
        lemma_path_transitive(x, y, z);
    }
    assert forall|x: Seq<Seq<char>>, y: Seq<Seq<char>>| #[trigger] r(x, y) || #[trigger] r(y, x) by {
        lemma_path_total(x, y);
    }
}

/// The views of a path's components.
pub open spec fn comps(p: Vec<String>) -> Seq<Seq<char>> {
    strs(p@)
}

/// The views of a sequence of paths.
pub open spec fn path_views(ps: Seq<Vec<String>>) -> Seq<Seq<Seq<char>>> {
    ps.map_values(|p: Vec<String>| comps(p))
}

/// `a <= b` for paths given as their components.
pub fn path_le_exec(a: &Vec<String>, b: &Vec<String>) -> (r: bool)
    ensures
        r == path_le(comps(*a), comps(*b)),
{
    let mut i: usize = 0;
    assert(comps(*a).skip(0) =~= comps(*a));
    assert(comps(*b).skip(0) =~= comps(*b));
    loop
        invariant
            i <= a.len(),
            i <= b.len(),
            path_le(comps(*a), comps(*b)) == path_le(comps(*a).skip(i as int), comps(*b).skip(i as int)),
        decreases a.len() - i,
    {
        if i == a.len() {
            return true;
        }
        if i == b.len() {
            return false;
        }
        let x = chars_of(a[i].as_str());
        let y = chars_of(b[i].as_str());
        assert(comps(*a).skip(i as int)[0] == x@);
        assert(comps(*b).skip(i as int)[0] == y@);
        if !chars_eq(&x, &y) {
            return lex_le_chars(&x, &y);
        }
        assert(comps(*a).skip(i as int).drop_first() =~= comps(*a).skip(i + 1));
        assert(comps(*b).skip(i as int).drop_first() =~= comps(*b).skip(i + 1));
        i = i + 1;
    }
}

/// `items` sorted by [`path_le`]: exactly `path_views(items).sort_by(path_order())`.
pub fn sort_paths(items: Vec<Vec<String>>) -> (r: Vec<Vec<String>>)
    ensures
        path_views(r@) == path_views(items@).sort_by(path_order()),
{
    proof {
        lemma_path_order_total();
    }
    let ghost src = path_views(items@);
    let n = items.len();
    let mut rest = items;
    let mut sorted: Vec<Vec<String>> = Vec::new();
    let mut i: usize = 0;
    assert(path_views(sorted@) =~= src.take(0));
    while rest.len() > 0
        invariant
            i + rest@.len() == src.len(),
            src.len() == n,
            forall|j: int| 0 <= j < rest@.len() ==> #[trigger] comps(rest@[j]) == src[i + j],
            total_ordering(path_order()),
            sorted_by(path_views(sorted@), path_order()),
            path_views(sorted@).to_multiset() == src.take(i as int).to_multiset(),
        decreases rest@.len(),
    {
        assert(comps(rest@[0]) == src[i + 0]);
        let ghost prev_rest = rest@;
        let x = rest.remove(0);
        assert forall|j: int| 0 <= j < rest@.len() implies #[trigger] comps(rest@[j]) == src[(i + 1) + j] by {
            assert(rest@[j] == prev_rest[j + 1]);
        }
        let mut p: usize = 0;
        while p < sorted.len() && path_le_exec(&sorted[p], &x)
            invariant
                p <= sorted.len(),
                forall|j: int| 0 <= j < p ==> path_le(comps(#[trigger] sorted@[j]), comps(x)),
            decreases sorted.len() - p,
        {
            p = p + 1;
        }
        let ghost before = path_views(sorted@);
        let ghost xv = comps(x);
        sorted.insert(p, x);
        assert(path_views(sorted@) =~= before.insert(p as int, xv));
        proof {
            to_multiset_insert(before, p as int, xv);
            assert(src.take(i + 1) =~= src.take(i as int).push(xv));
            assert(src.take(i as int).push(xv) =~= src.take(i as int).insert(i as int, xv));
            to_multiset_insert(src.take(i as int), i as int, xv);
            let r = path_order();
            let s = path_views(sorted@);
            assert forall|a: int, b: int| 0 <= a < b < s.len() implies #[trigger] r(s[a], s[b]) by {
                if b < p {
                    assert(s[a] == before[a] && s[b] == before[b]);
                } else if b == p {
                    assert(s[a] == before[a]);
                    assert(r(before[a], xv));
                } else if a == p {
                    assert(s[b] == before[b - 1]);
                    assert(!path_le(before[p as int], xv));
                    lemma_path_total(before[p as int], xv);
                    if b - 1 > p {
                        assert(r(before[p as int], before[b - 1]));
                    } else {
                        lemma_path_reflexive(before[p as int]);
                    }
                    lemma_path_transitive(xv, before[p as int], before[b - 1]);
                } else if a < p {
                    assert(s[a] == before[a] && s[b] == before[b - 1]);
                    assert(r(before[a], before[b - 1]));
                } else {
                    assert(s[a] == before[a - 1] && s[b] == before[b - 1]);
                    assert(r(before[a - 1], before[b - 1]));
                }
            }
        }
        i = i + 1;
    }
    proof {
        assert(src.take(i as int) =~= src);
        src.lemma_sort_by_ensures(path_order());
        lemma_sorted_unique(path_views(sorted@), src.sort_by(path_order()), path_order());
    }
    sorted
}

// ---------------------------------------------------------------------------
// Filtering and sorting
// ---------------------------------------------------------------------------

/// Filtering twice is filtering by both predicates.
pub proof fn lemma_filter_twice<A>(
    s: Seq<A>,
    p: spec_fn(A) -> bool,
    q: spec_fn(A) -> bool,
    pq: spec_fn(A) -> bool,
)
    requires
        forall|x: A| #[trigger] pq(x) == (p(x) && q(x)),
    ensures
        s.filter(pq) == s.filter(p).filter(q),
    decreases s.len(),
{
    reveal_with_fuel(Seq::filter, 1);
    if s.len() > 0 {
        lemma_filter_twice(s.drop_last(), p, q, pq);
        let fp = s.drop_last().filter(p);
        if p(s.last()) {
            assert(fp.push(s.last()).drop_last() =~= fp);
        }
    }
}

/// Every element that filtering keeps comes from the sequence.
pub proof fn lemma_filter_from<A>(s: Seq<A>, p: spec_fn(A) -> bool)
    ensures
        forall|i: int| 0 <= i < s.filter(p).len() ==> s.contains(#[trigger] s.filter(p)[i]),
    decreases s.len(),
{
    reveal_with_fuel(Seq::filter, 1);
    if s.len() > 0 {
        let d = s.drop_last();
        lemma_filter_from(d, p);
        assert forall|i: int| 0 <= i < s.filter(p).len() implies s.contains(
            #[trigger] s.filter(p)[i],
        ) by {
            if i < d.filter(p).len() {
                assert(s.filter(p)[i] == d.filter(p)[i]);
                assert(d.contains(d.filter(p)[i]));
                let j = choose|j: int| 0 <= j < d.len() && d[j] == d.filter(p)[i];
                assert(s[j] == d[j]);
            } else {
                assert(s.filter(p)[i] == s[s.len() - 1]);
            }
        }
    }
}

/// Filtering a sorted sequence leaves it sorted.
pub proof fn lemma_filter_keeps_sorted<A>(s: Seq<A>, p: spec_fn(A) -> bool, r: spec_fn(A, A) -> bool)
    requires
        sorted_by(s, r),
    ensures
        sorted_by(s.filter(p), r),
    decreases s.len(),
{
    reveal_with_fuel(Seq::filter, 1);
    if s.len() > 0 {
        let d = s.drop_last();
        assert(sorted_by(d, r)) by {
            assert forall|i: int, j: int| 0 <= i < j < d.len() implies #[trigger] r(d[i], d[j]) by {
                assert(d[i] == s[i] && d[j] == s[j]);
            }
        }
        lemma_filter_keeps_sorted(d, p, r);
        lemma_filter_from(d, p);
        if p(s.last()) {
            let f = d.filter(p);
            let g = f.push(s.last());
            assert forall|i: int, j: int| 0 <= i < j < g.len() implies #[trigger] r(g[i], g[j]) by {
                if j < f.len() {
                    assert(g[i] == f[i] && g[j] == f[j]);
                } else {
                    assert(g[i] == f[i]);
                    assert(d.contains(f[i]));
                    let k = choose|k: int| 0 <= k < d.len() && d[k] == f[i];
                    assert(s[k] == d[k]);
                    assert(g[j] == s[s.len() - 1]);
                }
            }
        }
    }
}

/// How often filtering keeps a value: as often as it occurs when the
/// predicate holds of it, never otherwise.
pub proof fn lemma_filter_counts<A>(s: Seq<A>, p: spec_fn(A) -> bool)
    ensures
        forall|x: A|
            #[trigger] s.filter(p).to_multiset().count(x) == if p(x) {
                s.to_multiset().count(x)
            } else {
                0
            },
    decreases s.len(),
{
    broadcast use vstd::multiset::group_multiset_axioms;
    broadcast use vstd::seq_lib::group_to_multiset_ensures;

    reveal_with_fuel(Seq::filter, 1);
    if s.len() == 0 {
        assert(s.filter(p).len() == 0);
        assert(s.to_multiset() =~= Multiset::<A>::empty());
        assert(s.filter(p).to_multiset() =~= Multiset::<A>::empty());
    } else {
        let d = s.drop_last();
        let l = s.last();
        lemma_filter_counts(d, p);
        assert(d.push(l) =~= s);
        vstd::seq_lib::to_multiset_build(d, l);
        if p(l) {
            vstd::seq_lib::to_multiset_build(d.filter(p), l);
        }
        assert forall|x: A|
            #[trigger] s.filter(p).to_multiset().count(x) == if p(x) {
                s.to_multiset().count(x)
            } else {
                0
            } by {
            assert(d.filter(p).to_multiset().count(x) == if p(x) {
                d.to_multiset().count(x)
            } else {
                0
            });
        }
    }
}

/// Sequences with the same elements keep the same elements under a filter.
pub proof fn lemma_filter_same_elements<A>(s: Seq<A>, t: Seq<A>, p: spec_fn(A) -> bool)
    requires
        s.to_multiset() == t.to_multiset(),
    ensures
        s.filter(p).to_multiset() == t.filter(p).to_multiset(),
{
    lemma_filter_counts(s, p);
    lemma_filter_counts(t, p);
    assert(s.filter(p).to_multiset() =~= t.filter(p).to_multiset());
}

/// Filtering commutes with sorting by a total order.
pub proof fn lemma_filter_commutes_with_sort<A>(
    s: Seq<A>,
    p: spec_fn(A) -> bool,
    r: spec_fn(A, A) -> bool,
)
    requires
        total_ordering(r),
    ensures
        s.filter(p).sort_by(r) == s.sort_by(r).filter(p),
{
    let a = s.filter(p).sort_by(r);
    let b = s.sort_by(r).filter(p);
    s.filter(p).lemma_sort_by_ensures(r);
    s.lemma_sort_by_ensures(r);
    lemma_filter_keeps_sorted(s.sort_by(r), p, r);
    lemma_filter_same_elements(s, s.sort_by(r), p);
    lemma_sorted_unique(a, b, r);
}

} // verus!
