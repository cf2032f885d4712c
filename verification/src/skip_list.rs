//! The skip list: which test files are skipped, why, and where that is
//! tracked. Entries are keyed by the test file's path; when two entries name
//! the same path, the later one wins.

use vstd::prelude::*;

verus! {

/// A single skip-list entry: why a test is skipped and where it's tracked.
#[derive(Debug, Clone)]
pub struct SkipEntry {
    pub path: String,
    pub reason: String,
    pub ticket: Option<String>,
    pub note: Option<String>,
}

/// The mathematical value of a [`SkipEntry`].
pub struct SkipEntryView {
    pub path: Seq<char>,
    pub reason: Seq<char>,
    pub ticket: Option<Seq<char>>,
    pub note: Option<Seq<char>>,
}

impl View for SkipEntry {
    type V = SkipEntryView;

    open spec fn view(&self) -> SkipEntryView {
        SkipEntryView {
            path: self.path@,
            reason: self.reason@,
            ticket: match self.ticket {
                Some(t) => Some(t@),
                None => None,
            },
            note: match self.note {
                Some(n) => Some(n@),
                None => None,
            },
        }
    }
}

/// The views of a sequence of entries.
pub open spec fn entry_views(es: Seq<SkipEntry>) -> Seq<SkipEntryView> {
    es.map_values(|e: SkipEntry| e@)
}

/// The lookup table that a list of entries makes: each entry under its
/// path, a later entry replacing an earlier one with the same path.
pub open spec fn entry_map(es: Seq<SkipEntryView>) -> Map<Seq<char>, SkipEntryView>
    decreases es.len(),
{
    if es.len() == 0 {
        Map::empty()
    } else {
        entry_map(es.drop_last()).insert(es.last().path, es.last())
    }
}

/// A set of test paths that should be skipped, keyed by path for lookup.
pub struct SkipList {
    entries: Vec<SkipEntry>,
    table: Ghost<Map<Seq<char>, SkipEntryView>>,
}

impl View for SkipList {
    type V = Map<Seq<char>, SkipEntryView>;

    closed spec fn view(&self) -> Map<Seq<char>, SkipEntryView> {
        self.table@
    }
}

impl SkipList {
    /// The stored entries hold distinct paths and are exactly the table.
    #[verifier::type_invariant]
    closed spec fn wf(self) -> bool {
        &&& forall|i: int, j: int|
            0 <= i < j < self.entries@.len() ==> self.entries@[i].path@
                != self.entries@[j].path@
        &&& forall|i: int|
            0 <= i < self.entries@.len() ==> #[trigger] self.table@.contains_key(
                self.entries@[i].path@,
            ) && self.table@[self.entries@[i].path@] == self.entries@[i]@
        &&& forall|k: Seq<char>|
            #[trigger] self.table@.contains_key(k) ==> exists|i: int|
                0 <= i < self.entries@.len() && self.entries@[i].path@ == k
    }

    /// Index of the stored entry for `path`, if any.
    fn find(&self, path: &String) -> (r: Option<usize>)
        ensures
            match r {
                Some(i) => i < self.entries@.len() && self.entries@[i as int].path@ == path@,
                None => forall|i: int|
                    0 <= i < self.entries@.len() ==> self.entries@[i].path@ != path@,
            },
    {
        let mut i: usize = 0;
        while i < self.entries.len()
            invariant
                i <= self.entries@.len(),
                forall|j: int| 0 <= j < i ==> self.entries@[j].path@ != path@,
            decreases self.entries@.len() - i,
        {
            if self.entries[i].path == *path {
                return Some(i);
            }
            i = i + 1;
        }
        None
    }

    /// A skip list holding the given entries; for entries with the same path
    /// the later one is kept.
    pub fn from_entries(entries: Vec<SkipEntry>) -> (r: SkipList)
        ensures
            r@ == entry_map(entry_views(entries@)),
    {
        let mut list = SkipList { entries: Vec::new(), table: Ghost(Map::empty()) };
        let ghost src = entry_views(entries@);
        let n = entries.len();
        let mut rest = entries;
        let mut i: usize = 0;
        assert(src.take(0) =~= Seq::<SkipEntryView>::empty());
        while rest.len() > 0
            invariant
                i + rest@.len() == src.len(),
                src.len() == n,
                src == entry_views(entries@),
                forall|j: int| 0 <= j < rest@.len() ==> #[trigger] rest@[j]@ == src[i + j],
                list@ == entry_map(src.take(i as int)),
            decreases rest@.len(),
        {
            assert(rest@[0]@ == src[i + 0]);
            let e = rest.remove(0);
            assert(e@ == src[i as int]);
            assert(src.take(i + 1).drop_last() =~= src.take(i as int));
            list.insert(e);
            i = i + 1;
        }
        assert(src.take(i as int) =~= src);
        list
    }

    /// Stores `e` under its path, replacing the entry stored there.
    fn insert(&mut self, e: SkipEntry)
        ensures
            final(self)@ == old(self)@.insert(e@.path, e@),
    {
        proof {
            use_type_invariant(&*self);
        }
        let ghost t = self.table@.insert(e@.path, e@);
        let found = self.find(&e.path);
        let mut cur = SkipList { entries: Vec::new(), table: Ghost(Map::empty()) };
        std::mem::swap(self, &mut cur);
        proof {
            use_type_invariant(&cur);
        }
        let SkipList { entries: mut entries, table: _ } = cur;
        match found {
            Some(i) => {
                let ghost old_entries = entries@;
                entries.set(i, e);
                assert forall|k: Seq<char>| #[trigger] t.contains_key(k) implies exists|j: int|
                    0 <= j < entries@.len() && entries@[j].path@ == k by {
                    if k != e@.path {
                        let j = choose|j: int|
                            0 <= j < old_entries.len() && old_entries[j].path@ == k;
                        assert(entries@[j] == old_entries[j]);
                    } else {
                        assert(entries@[i as int].path@ == k);
                    }
                }
                *self = SkipList { entries, table: Ghost(t) };
            },
            None => {
                let ghost old_entries = entries@;
                entries.push(e);
                assert forall|k: Seq<char>| #[trigger] t.contains_key(k) implies exists|j: int|
                    0 <= j < entries@.len() && entries@[j].path@ == k by {
                    if k != e@.path {
                        let j = choose|j: int|
                            0 <= j < old_entries.len() && old_entries[j].path@ == k;
                        assert(entries@[j] == old_entries[j]);
                    } else {
                        assert(entries@[old_entries.len() as int].path@ == k);
                    }
                }
                *self = SkipList { entries, table: Ghost(t) };
            },
        }
    }

    /// Returns the skip entry for the given test path, if any. The path is
    /// matched against the entries' `path` fields, which use the same format
    /// (e.g. `tests/main/foo.test`).
    pub fn entry(&self, test_path: &str) -> (r: Option<&SkipEntry>)
        ensures
            match r {
                Some(e) => self@.contains_key(test_path@) && e@ == self@[test_path@],
                None => !self@.contains_key(test_path@),
            },
    {
        proof {
            use_type_invariant(self);
        }
        let key = String::from_str(test_path);
        match self.find(&key) {
            Some(i) => {
                assert(self.table@.contains_key(self.entries@[i as int].path@));
                Some(&self.entries[i])
            },
            None => {
                assert forall|k: Seq<char>| #[trigger] self.table@.contains_key(k) implies k
                    != test_path@ by {
                    let j = choose|j: int|
                        0 <= j < self.entries@.len() && self.entries@[j].path@ == k;
                }
                None
            },
        }
    }
}

impl Default for SkipList {
    /// An empty skip list.
    fn default() -> (r: SkipList)
        ensures
            r@ == Map::<Seq<char>, SkipEntryView>::empty(),
    {
        SkipList { entries: Vec::new(), table: Ghost(Map::empty()) }
    }
}

/// Looking up a path after building a skip list gives back the last entry
/// that names that path, and paths no entry names are not found.
pub proof fn lemma_lookup_gives_last_entry(es: Seq<SkipEntryView>, k: Seq<char>)
    ensures
        entry_map(es).contains_key(k) <==> exists|i: int| 0 <= i < es.len() && es[i].path == k,
        forall|i: int|
            0 <= i < es.len() && es[i].path == k && (forall|j: int|
                i < j < es.len() ==> es[j].path != k) ==> entry_map(es)[k] == es[i],
    decreases es.len(),
{
    if es.len() > 0 {
        let init = es.drop_last();
        lemma_lookup_gives_last_entry(init, k);
        if es.last().path != k {
            assert forall|i: int| 0 <= i < init.len() && init[i].path == k implies 0 <= i
                < es.len() && es[i].path == k by {
                assert(init[i] == es[i]);
            }
            assert forall|i: int| 0 <= i < es.len() && es[i].path == k implies 0 <= i < init.len()
                && init[i].path == k by {
                assert(i != es.len() - 1);
                assert(init[i] == es[i]);
            }
            assert forall|i: int|
                0 <= i < es.len() && es[i].path == k && (forall|j: int|
                    i < j < es.len() ==> es[j].path != k) implies entry_map(es)[k] == es[i] by {
                assert(i < es.len() - 1);
                assert(init[i] == es[i]);
                assert forall|j: int| i < j < init.len() implies init[j].path != k by {
                    assert(init[j] == es[j]);
                }
            }
        } else {
            assert(es[es.len() - 1].path == k);
        }
    }
}

} // verus!
