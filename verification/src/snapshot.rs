use vstd::prelude::*;

use crate::text::{
    chars_lt, compare_strs, lemma_chars_lt_connected, lemma_chars_lt_irreflexive,
    lemma_chars_lt_transitive, StrOrder,
};

verus! {

/// One tracked file: its relative path and the fingerprint of its content.
#[derive(Clone, Debug)]
pub struct SnapEntry {
    pub path: String,
    pub fingerprint: u64,
}

/// A snapshot of the working tree: a mapping from relative file path to
/// content fingerprint. Entries are kept strictly sorted by path, so paths
/// are unique and iteration order is deterministic.
#[derive(Clone, Debug)]
pub struct Snapshot {
    pub entries: Vec<SnapEntry>,
}

/// Whether some entry of `s` holds path `p`.
pub open spec fn has_path(s: Seq<SnapEntry>, p: Seq<char>) -> bool {
    exists|i: int| 0 <= i < s.len() && s[i].path@ == p
}

/// The index of the entry of `s` holding path `p`.
pub open spec fn path_index(s: Seq<SnapEntry>, p: Seq<char>) -> int {
    choose|i: int| 0 <= i < s.len() && s[i].path@ == p
}

/// The mapping a sequence of entries stands for.
pub open spec fn snap_map(s: Seq<SnapEntry>) -> Map<Seq<char>, u64> {
    Map::new(|p: Seq<char>| has_path(s, p), |p: Seq<char>| s[path_index(s, p)].fingerprint)
}

/// Entries strictly sorted by path in lexicographic order.
pub open spec fn sorted_entries(s: Seq<SnapEntry>) -> bool {
    forall|i: int, j: int| 0 <= i < j < s.len() ==> chars_lt(s[i].path@, s[j].path@)
}

/// No two entries share a path.
pub open spec fn distinct_paths(s: Seq<SnapEntry>) -> bool {
    forall|i: int, j: int| 0 <= i < j < s.len() ==> s[i].path@ != s[j].path@
}

pub proof fn lemma_sorted_implies_distinct(s: Seq<SnapEntry>)
    requires
        sorted_entries(s),
    ensures
        distinct_paths(s),
{
    assert forall|i: int, j: int| 0 <= i < j < s.len() implies s[i].path@ != s[j].path@ by {
        lemma_chars_lt_irreflexive(s[i].path@);
    }
}

/// In a duplicate-free sequence, each entry is what the mapping returns for
/// its path.
pub proof fn lemma_entry_in_map(s: Seq<SnapEntry>, i: int)
    requires
        distinct_paths(s),
        0 <= i < s.len(),
    ensures
        snap_map(s).dom().contains(s[i].path@),
        snap_map(s)[s[i].path@] == s[i].fingerprint,
{
    assert(has_path(s, s[i].path@));
    let j = path_index(s, s[i].path@);
    assert(0 <= j < s.len() && s[j].path@ == s[i].path@);
    if i != j {
        assert(false);
    }
}

impl View for Snapshot {
    type V = Map<Seq<char>, u64>;

    open spec fn view(&self) -> Map<Seq<char>, u64> {
        snap_map(self.entries@)
    }
}

impl Snapshot {
    /// Entries strictly sorted by path: the structural invariant every
    /// snapshot satisfies.
    pub open spec fn wf(self) -> bool {
        sorted_entries(self.entries@)
    }

    /// The empty snapshot.
    pub fn new() -> (r: Snapshot)
        ensures
            r.wf(),
            r@ == Map::<Seq<char>, u64>::empty(),
            r.entries@.len() == 0,
    {
        let r = Snapshot { entries: Vec::new() };
        proof {
            assert(r@ =~= Map::<Seq<char>, u64>::empty());
        }
        r
    }

    /// Look up the fingerprint recorded for `path`.
    pub fn get(&self, path: &str) -> (r: Option<u64>)
        requires
            self.wf(),
        ensures
            match r {
                Some(f) => self@.dom().contains(path@) && self@[path@] == f,
                None => !self@.dom().contains(path@),
            },
    {
        proof {
            lemma_sorted_implies_distinct(self.entries@);
        }
        let n = self.entries.len();
        let mut i: usize = 0;
        while i < n
            invariant
                n == self.entries@.len(),
                i <= n,
                self.wf(),
                forall|k: int| 0 <= k < i ==> self.entries@[k].path@ != path@,
            decreases n - i,
        {
            if crate::text::str_eq(self.entries[i].path.as_str(), path) {
                proof {
                    lemma_sorted_implies_distinct(self.entries@);
                    lemma_entry_in_map(self.entries@, i as int);
                }
                return Some(self.entries[i].fingerprint);
            }
            i = i + 1;
        }
        proof {
            assert(!has_path(self.entries@, path@));
        }
        None
    }

    /// Record `fp` for `path`, replacing any earlier record.
    pub fn insert(&mut self, path: String, fp: u64)
        requires
            old(self).wf(),
        ensures
            final(self).wf(),
            final(self)@ == old(self)@.insert(path@, fp),
    {
        proof {
            lemma_sorted_implies_distinct(self.entries@);
        }
        let ghost s0 = self.entries@;
        let n = self.entries.len();
        let mut i: usize = 0;
        while i < n && matches!(
            compare_strs(self.entries[i].path.as_str(), path.as_str()),
            StrOrder::Less,
        )
            invariant
                n == self.entries@.len(),
                i <= n,
                self.entries@ == s0,
                forall|k: int| 0 <= k < i ==> chars_lt(s0[k].path@, path@),
            decreases n - i,
        {
            i = i + 1;
        }
        if i < n && crate::text::str_eq(self.entries[i].path.as_str(), path.as_str()) {
            let fp_entry = SnapEntry { path, fingerprint: fp };
            let ghost p = fp_entry.path@;
            self.entries.set(i, fp_entry);
            proof {
                let s1 = self.entries@;
                assert forall|a: int, b: int| 0 <= a < b < s1.len() implies chars_lt(
                    s1[a].path@,
                    s1[b].path@,
                ) by {
                    assert(s1[a].path@ == s0[a].path@);
                    assert(s1[b].path@ == s0[b].path@);
                }
                lemma_sorted_implies_distinct(s1);
                assert forall|q: Seq<char>| true implies #[trigger] snap_map(s1).dom().contains(q)
                    == snap_map(s0).insert(p, fp).dom().contains(q) by {
                    if has_path(s1, q) {
                        let j = choose|j: int| 0 <= j < s1.len() && s1[j].path@ == q;
                        assert(s0[j].path@ == q);
                        assert(has_path(s0, q));
                    }
                    if has_path(s0, q) {
                        let j = choose|j: int| 0 <= j < s0.len() && s0[j].path@ == q;
                        assert(s1[j].path@ == q);
                        assert(has_path(s1, q));
                    }
                    assert(has_path(s1, q) == has_path(s0, q));
                }
                assert forall|q: Seq<char>| snap_map(s1).dom().contains(q) implies snap_map(s1)[q]
                    == snap_map(s0).insert(p, fp)[q] by {
                    let j = path_index(s1, q);
                    if q == p {
                        lemma_entry_in_map(s1, i as int);
                    } else {
                        assert(s1[j].path@ == q);
                        assert(j != i);
                        assert(s1[j] == s0[j]);
                        lemma_entry_in_map(s0, j);
                        lemma_entry_in_map(s1, j);
                    }
                }
                assert(snap_map(s1) =~= snap_map(s0).insert(p, fp));
            }
        } else {
            proof {
                if i < n {
                    assert(!chars_lt(s0[i as int].path@, path@));
                    lemma_chars_lt_connected(s0[i as int].path@, path@);
                    assert(chars_lt(path@, s0[i as int].path@));
                }
            }
            let fp_entry = SnapEntry { path, fingerprint: fp };
            let ghost p = fp_entry.path@;
            let ghost e = fp_entry;
            self.entries.insert(i, fp_entry);
            proof {
                let s1 = self.entries@;
                assert(s1 == s0.insert(i as int, e));
                s0.insert_ensures(i as int, e);
                assert(s1[i as int].path@ == p);
                assert forall|a: int, b: int| 0 <= a < b < s1.len() implies chars_lt(
                    s1[a].path@,
                    s1[b].path@,
                ) by {
                    if a < i && b == i {
                        assert(s1[a].path@ == s0[a].path@);
                    } else if a == i && b > i {
                        assert(s1[b] == s0[b - 1]);
                        assert(chars_lt(p, s0[i as int].path@));
                        if b - 1 > i {
                            lemma_chars_lt_transitive(p, s0[i as int].path@, s0[b - 1].path@);
                        }
                    } else if a < i && b > i {
                        assert(s1[a].path@ == s0[a].path@);
                        assert(s1[b] == s0[b - 1]);
                        if b - 1 > a {
                            assert(chars_lt(s0[a].path@, s0[b - 1].path@));
                        } else {
                            assert(chars_lt(s0[a].path@, p));
                        }
                    } else if a < i && b < i {
                        assert(s1[a] == s0[a]);
                        assert(s1[b] == s0[b]);
                        assert(chars_lt(s0[a].path@, s0[b].path@));
                    } else {
                        assert(a > i);
                        assert(s1[(a - 1) + 1] == s0[a - 1]);
                        assert(s1[(b - 1) + 1] == s0[b - 1]);
                        assert(chars_lt(s0[a - 1].path@, s0[b - 1].path@));
                    }
                }
                lemma_sorted_implies_distinct(s0);
                lemma_sorted_implies_distinct(s1);
                assert forall|q: Seq<char>| true implies #[trigger] snap_map(s1).dom().contains(q)
                    == snap_map(s0).insert(p, fp).dom().contains(q) by {
                    if q == p {
                        assert(s1[i as int].path@ == p);
                        assert(has_path(s1, q));
                    } else {
                        if has_path(s1, q) {
                            let j = choose|j: int| 0 <= j < s1.len() && s1[j].path@ == q;
                            if j < i {
                                assert(s0[j].path@ == q);
                            } else {
                                assert(j > i);
                                assert(s0[j - 1].path@ == q);
                            }
                            assert(has_path(s0, q));
                        }
                        if has_path(s0, q) {
                            let j = choose|j: int| 0 <= j < s0.len() && s0[j].path@ == q;
                            if j < i {
                                assert(s1[j].path@ == q);
                            } else {
                                assert(s1[j + 1].path@ == q);
                            }
                            assert(has_path(s1, q));
                        }
                    }
                }
                assert forall|q: Seq<char>| snap_map(s1).dom().contains(q) implies snap_map(s1)[q]
                    == snap_map(s0).insert(p, fp)[q] by {
                    if q == p {
                        lemma_entry_in_map(s1, i as int);
                    } else {
                        let j = path_index(s1, q);
                        assert(0 <= j < s1.len() && s1[j].path@ == q);
                        assert(j != i);
                        lemma_entry_in_map(s1, j);
                        if j < i {
                            assert(s1[j] == s0[j]);
                            lemma_entry_in_map(s0, j);
                        } else {
                            assert(s1[j] == s0[j - 1]);
                            lemma_entry_in_map(s0, j - 1);
                        }
                    }
                }
                assert(snap_map(s1) =~= snap_map(s0).insert(p, fp));
            }
        }
    }

    /// How many files the snapshot tracks.
    pub fn len(&self) -> (r: usize)
        ensures
            r == self.entries@.len(),
    {
        self.entries.len()
    }
}

} // verus!
