use vstd::prelude::*;

use crate::fingerprint::{fingerprint, fnv1a};
use crate::snapshot::{
    has_path, lemma_entry_in_map, lemma_sorted_implies_distinct, snap_map, sorted_entries,
    SnapEntry, Snapshot,
};
use crate::text::{
    chars_lt, compare_strs, contains_sub, lemma_chars_lt_irreflexive, lemma_chars_lt_transitive,
    str_contains, StrOrder,
};

verus! {

/// How one path changed between the baseline and the current snapshot.
#[derive(Clone, Copy, Debug, PartialEq, Eq, Structural)]
pub enum Status {
    New,
    Modified,
    Deleted,
    Unchanged,
}

/// One classified change: a path and what happened to it.
#[derive(Clone, Debug)]
pub struct FileStatus {
    pub path: String,
    pub status: Status,
}

/// How `p` is classified between baseline `prev` and current `cur`:
/// only in `cur` means new, in both with different fingerprints means
/// modified, only in `prev` means deleted, and in both unchanged means no
/// change record at all.
pub open spec fn change_status(
    prev: Map<Seq<char>, u64>,
    cur: Map<Seq<char>, u64>,
    p: Seq<char>,
) -> Option<Status> {
    if cur.dom().contains(p) {
        if !prev.dom().contains(p) {
            Some(Status::New)
        } else if prev[p] != cur[p] {
            Some(Status::Modified)
        } else {
            None
        }
    } else if prev.dom().contains(p) {
        Some(Status::Deleted)
    } else {
        None
    }
}

/// What a correct change report is: every record correctly classified,
/// every changed path reported, and records strictly sorted by path
/// (which also makes them unique). These three clauses pin the report
/// down completely.
pub open spec fn is_change_list(
    prev: Map<Seq<char>, u64>,
    cur: Map<Seq<char>, u64>,
    out: Seq<FileStatus>,
) -> bool {
    &&& forall|k: int|
        0 <= k < out.len() ==> change_status(prev, cur, out[k].path@) == Some(out[k].status)
    &&& forall|p: Seq<char>|
        change_status(prev, cur, p) is Some ==> exists|k: int|
            0 <= k < out.len() && out[k].path@ == p
    &&& forall|k1: int, k2: int|
        0 <= k1 < k2 < out.len() ==> chars_lt(out[k1].path@, out[k2].path@)
}

/// `p` does not occur in `s` when everything before `j` is below `p` and
/// the rest is above it.
proof fn lemma_absent(s: Seq<SnapEntry>, j: int, p: Seq<char>)
    requires
        sorted_entries(s),
        0 <= j <= s.len(),
        forall|k: int| 0 <= k < j ==> chars_lt(s[k].path@, p),
        j < s.len() ==> chars_lt(p, s[j].path@),
    ensures
        !has_path(s, p),
        !snap_map(s).dom().contains(p),
{
    assert forall|k: int| 0 <= k < s.len() implies s[k].path@ != p by {
        if k < j {
            lemma_chars_lt_irreflexive(p);
        } else {
            if k > j {
                lemma_chars_lt_transitive(p, s[j].path@, s[k].path@);
            }
            lemma_chars_lt_irreflexive(p);
        }
    }
}

/// Diff the baseline against the current snapshot, classifying every path
/// of either. The result is sorted by path ascending; unchanged paths are
/// never reported.
#[verifier::rlimit(100)]
pub fn scan_changes(previous: &Snapshot, current: &Snapshot) -> (r: Vec<FileStatus>)
    requires
        previous.wf(),
        current.wf(),
    ensures
        is_change_list(previous@, current@, r@),
{
    let ghost ps = previous.entries@;
    let ghost cs = current.entries@;
    let ghost pm = previous@;
    let ghost cm = current@;
    proof {
        lemma_sorted_implies_distinct(ps);
        lemma_sorted_implies_distinct(cs);
    }
    let plen = previous.entries.len();
    let clen = current.entries.len();
    let mut out: Vec<FileStatus> = Vec::new();
    let mut i: usize = 0;
    let mut j: usize = 0;
    while i < plen || j < clen
        invariant
            i <= plen,
            j <= clen,
            plen == ps.len(),
            clen == cs.len(),
            ps == previous.entries@,
            cs == current.entries@,
            pm == snap_map(ps),
            cm == snap_map(cs),
            sorted_entries(ps),
            sorted_entries(cs),
            crate::snapshot::distinct_paths(ps),
            crate::snapshot::distinct_paths(cs),
            forall|k: int|
                0 <= k < out@.len() ==> change_status(pm, cm, out@[k].path@) == Some(
                    out@[k].status,
                ),
            forall|k1: int, k2: int|
                0 <= k1 < k2 < out@.len() ==> chars_lt(out@[k1].path@, out@[k2].path@),
            forall|k: int|
                0 <= k < out@.len() && i < plen ==> chars_lt(out@[k].path@, ps[i as int].path@),
            forall|k: int|
                0 <= k < out@.len() && j < clen ==> chars_lt(out@[k].path@, cs[j as int].path@),
            forall|k: int|
                0 <= k < i && j < clen ==> chars_lt(ps[k].path@, cs[j as int].path@),
            forall|k: int|
                0 <= k < j && i < plen ==> chars_lt(cs[k].path@, ps[i as int].path@),
            forall|p: Seq<char>|
                change_status(pm, cm, p) is Some && ((exists|k: int|
                    0 <= k < i && ps[k].path@ == p) || (exists|k: int|
                    0 <= k < j && cs[k].path@ == p)) ==> exists|k: int|
                    0 <= k < out@.len() && out@[k].path@ == p,
        decreases plen - i + clen - j,
    {
        let ghost out0 = out@;
        let step: StrOrder = if i >= plen {
            StrOrder::Greater
        } else if j >= clen {
            StrOrder::Less
        } else {
            compare_strs(previous.entries[i].path.as_str(), current.entries[j].path.as_str())
        };
        match step {
            StrOrder::Less => {
                let ghost p = ps[i as int].path@;
                proof {
                    lemma_entry_in_map(ps, i as int);
                    lemma_absent(cs, j as int, p);
                    assert(change_status(pm, cm, p) == Some(Status::Deleted));
                }
                let rec = FileStatus {
                    path: previous.entries[i].path.clone(),
                    status: Status::Deleted,
                };
                out.push(rec);
                proof {
                    assert(out@[out0.len() as int].path@ == p);
                    assert forall|k1: int, k2: int| 0 <= k1 < k2 < out@.len() implies chars_lt(
                        out@[k1].path@,
                        out@[k2].path@,
                    ) by {
                        if k2 == out0.len() {
                            assert(chars_lt(out0[k1].path@, p));
                        }
                    }
                    assert forall|k: int| 0 <= k < out@.len() && i + 1 < plen implies chars_lt(
                        out@[k].path@,
                        ps[i + 1].path@,
                    ) by {
                        assert(chars_lt(p, ps[i + 1].path@));
                        if k < out0.len() {
                            lemma_chars_lt_transitive(out@[k].path@, p, ps[i + 1].path@);
                        }
                    }
                    assert forall|k: int| 0 <= k < out@.len() && j < clen implies chars_lt(
                        out@[k].path@,
                        cs[j as int].path@,
                    ) by {
                        if k == out0.len() {
                            assert(chars_lt(p, cs[j as int].path@));
                        }
                    }
                    assert forall|k: int| 0 <= k < i + 1 && j < clen implies chars_lt(
                        ps[k].path@,
                        cs[j as int].path@,
                    ) by {
                        if k == i {
                            assert(chars_lt(p, cs[j as int].path@));
                        }
                    }
                    assert forall|k: int| 0 <= k < j && i + 1 < plen implies chars_lt(
                        cs[k].path@,
                        ps[i + 1].path@,
                    ) by {
                        assert(chars_lt(cs[k].path@, ps[i as int].path@));
                        lemma_chars_lt_transitive(cs[k].path@, ps[i as int].path@, ps[i + 1].path@);
                    }
                    assert forall|q: Seq<char>|
                        change_status(pm, cm, q) is Some && ((exists|k: int|
                            0 <= k < i + 1 && ps[k].path@ == q) || (exists|k: int|
                            0 <= k < j && cs[k].path@ == q)) implies exists|k: int|
                        0 <= k < out@.len() && out@[k].path@ == q by {
                        if (exists|k: int| 0 <= k < i && ps[k].path@ == q) || (exists|k: int|
                            0 <= k < j && cs[k].path@ == q) {
                            let k0 = choose|k0: int| 0 <= k0 < out0.len() && out0[k0].path@ == q;
                            assert(out@[k0].path@ == q);
                        } else {
                            assert(ps[i as int].path@ == q);
                            assert(out@[out0.len() as int].path@ == q);
                        }
                    }
                }
                i = i + 1;
            },
            StrOrder::Greater => {
                let ghost p = cs[j as int].path@;
                proof {
                    lemma_entry_in_map(cs, j as int);
                    lemma_absent(ps, i as int, p);
                    assert(change_status(pm, cm, p) == Some(Status::New));
                }
                let rec = FileStatus {
                    path: current.entries[j].path.clone(),
                    status: Status::New,
                };
                out.push(rec);
                proof {
                    assert(out@[out0.len() as int].path@ == p);
                    assert forall|k1: int, k2: int| 0 <= k1 < k2 < out@.len() implies chars_lt(
                        out@[k1].path@,
                        out@[k2].path@,
                    ) by {
                        if k2 == out0.len() {
                            assert(chars_lt(out0[k1].path@, p));
                        }
                    }
                    assert forall|k: int| 0 <= k < out@.len() && j + 1 < clen implies chars_lt(
                        out@[k].path@,
                        cs[j + 1].path@,
                    ) by {
                        assert(chars_lt(p, cs[j + 1].path@));
                        if k < out0.len() {
                            lemma_chars_lt_transitive(out@[k].path@, p, cs[j + 1].path@);
                        }
                    }
                    assert forall|k: int| 0 <= k < out@.len() && i < plen implies chars_lt(
                        out@[k].path@,
                        ps[i as int].path@,
                    ) by {
                        if k == out0.len() {
                            assert(chars_lt(p, ps[i as int].path@));
                        }
                    }
                    assert forall|k: int| 0 <= k < j + 1 && i < plen implies chars_lt(
                        cs[k].path@,
                        ps[i as int].path@,
                    ) by {
                        if k == j {
                            assert(chars_lt(p, ps[i as int].path@));
                        }
                    }
                    assert forall|k: int| 0 <= k < i && j + 1 < clen implies chars_lt(
                        ps[k].path@,
                        cs[j + 1].path@,
                    ) by {
                        assert(chars_lt(ps[k].path@, cs[j as int].path@));
                        lemma_chars_lt_transitive(ps[k].path@, cs[j as int].path@, cs[j + 1].path@);
                    }
                    assert forall|q: Seq<char>|
                        change_status(pm, cm, q) is Some && ((exists|k: int|
                            0 <= k < i && ps[k].path@ == q) || (exists|k: int|
                            0 <= k < j + 1 && cs[k].path@ == q)) implies exists|k: int|
                        0 <= k < out@.len() && out@[k].path@ == q by {
                        if (exists|k: int| 0 <= k < i && ps[k].path@ == q) || (exists|k: int|
                            0 <= k < j && cs[k].path@ == q) {
                            let k0 = choose|k0: int| 0 <= k0 < out0.len() && out0[k0].path@ == q;
                            assert(out@[k0].path@ == q);
                        } else {
                            assert(cs[j as int].path@ == q);
                            assert(out@[out0.len() as int].path@ == q);
                        }
                    }
                }
                j = j + 1;
            },
            StrOrder::Equal => {
                let ghost p = ps[i as int].path@;
                proof {
                    assert(cs[j as int].path@ == p);
                    lemma_entry_in_map(ps, i as int);
                    lemma_entry_in_map(cs, j as int);
                }
                let pf = previous.entries[i].fingerprint;
                let cf = current.entries[j].fingerprint;
                if pf != cf {
                    let rec = FileStatus {
                        path: current.entries[j].path.clone(),
                        status: Status::Modified,
                    };
                    proof {
                        assert(change_status(pm, cm, p) == Some(Status::Modified));
                    }
                    out.push(rec);
                    proof {
                        assert(out@[out0.len() as int].path@ == p);
                        assert forall|k1: int, k2: int| 0 <= k1 < k2 < out@.len() implies chars_lt(
                            out@[k1].path@,
                            out@[k2].path@,
                        ) by {
                            if k2 == out0.len() {
                                assert(chars_lt(out0[k1].path@, p));
                            }
                        }
                    }
                } else {
                    proof {
                        assert(change_status(pm, cm, p) is None);
                    }
                }
                proof {
                    let ghost outn = out@;
                    assert forall|k: int| 0 <= k < outn.len() && i + 1 < plen implies chars_lt(
                        outn[k].path@,
                        ps[i + 1].path@,
                    ) by {
                        assert(chars_lt(p, ps[i + 1].path@));
                        if k < out0.len() {
                            lemma_chars_lt_transitive(outn[k].path@, p, ps[i + 1].path@);
                        }
                    }
                    assert forall|k: int| 0 <= k < outn.len() && j + 1 < clen implies chars_lt(
                        outn[k].path@,
                        cs[j + 1].path@,
                    ) by {
                        assert(chars_lt(p, cs[j + 1].path@));
                        if k < out0.len() {
                            lemma_chars_lt_transitive(outn[k].path@, p, cs[j + 1].path@);
                        }
                    }
                    assert forall|k: int| 0 <= k < i + 1 && j + 1 < clen implies chars_lt(
                        ps[k].path@,
                        cs[j + 1].path@,
                    ) by {
                        assert(chars_lt(p, cs[j + 1].path@));
                        if k < i {
                            lemma_chars_lt_transitive(ps[k].path@, p, cs[j + 1].path@);
                        }
                    }
                    assert forall|k: int| 0 <= k < j + 1 && i + 1 < plen implies chars_lt(
                        cs[k].path@,
                        ps[i + 1].path@,
                    ) by {
                        assert(chars_lt(p, ps[i + 1].path@));
                        if k < j {
                            lemma_chars_lt_transitive(cs[k].path@, p, ps[i + 1].path@);
                        }
                    }
                    assert forall|q: Seq<char>|
                        change_status(pm, cm, q) is Some && ((exists|k: int|
                            0 <= k < i + 1 && ps[k].path@ == q) || (exists|k: int|
                            0 <= k < j + 1 && cs[k].path@ == q)) implies exists|k: int|
                        0 <= k < outn.len() && outn[k].path@ == q by {
                        if (exists|k: int| 0 <= k < i && ps[k].path@ == q) || (exists|k: int|
                            0 <= k < j && cs[k].path@ == q) {
                            let k0 = choose|k0: int| 0 <= k0 < out0.len() && out0[k0].path@ == q;
                            assert(outn[k0].path@ == q);
                        } else {
                            assert(q == p);
                            if pf == cf {
                                assert(change_status(pm, cm, q) is None);
                            } else {
                                assert(outn[out0.len() as int].path@ == q);
                            }
                        }
                    }
                }
                i = i + 1;
                j = j + 1;
            },
        }
    }
    proof {
        assert forall|p: Seq<char>| change_status(pm, cm, p) is Some implies exists|k: int|
            0 <= k < out@.len() && out@[k].path@ == p by {
            if cm.dom().contains(p) {
                assert(has_path(cs, p));
            } else {
                assert(pm.dom().contains(p));
                assert(has_path(ps, p));
            }
        }
    }
    out
}

/// Paths the tracker never records: the tool's own control directory,
/// build output, version-control metadata, and environment files.
pub open spec fn spec_should_ignore(p: Seq<char>) -> bool {
    ||| contains_sub(p, ".ark"@)
    ||| contains_sub(p, "target"@)
    ||| contains_sub(p, ".git"@)
    ||| contains_sub(p, ".env"@)
}

/// Whether a path is excluded from snapshots.
pub fn should_ignore(path: &str) -> (r: bool)
    ensures
        r == spec_should_ignore(path@),
{
    str_contains(path, ".ark") || str_contains(path, "target") || str_contains(path, ".git")
        || str_contains(path, ".env")
}

/// The snapshot a list of (path, raw content) pairs stands for: ignored
/// paths dropped, every other path mapped to the fingerprint of its
/// content; a later duplicate of a path wins, as for a map insertion.
pub open spec fn snap_of_files(files: Seq<(String, Vec<u8>)>) -> Map<Seq<char>, u64>
    decreases files.len(),
{
    if files.len() == 0 {
        Map::empty()
    } else {
        let rest = snap_of_files(files.drop_last());
        if spec_should_ignore(files.last().0@) {
            rest
        } else {
            rest.insert(files.last().0@, fnv1a(files.last().1@))
        }
    }
}

/// Build a fresh snapshot from the files of the working tree, given as
/// (path, raw content) pairs.
pub fn build_snapshot(files: &Vec<(String, Vec<u8>)>) -> (r: Snapshot)
    ensures
        r.wf(),
        r@ == snap_of_files(files@),
{
    let mut snap = Snapshot::new();
    proof {
        assert(files@.take(0) =~= Seq::<(String, Vec<u8>)>::empty());
    }
    let mut i: usize = 0;
    while i < files.len()
        invariant
            i <= files@.len(),
            snap.wf(),
            snap@ == snap_of_files(files@.take(i as int)),
        decreases files@.len() - i,
    {
        if !should_ignore(files[i].0.as_str()) {
            let fp = fingerprint(&files[i].1);
            snap.insert(files[i].0.clone(), fp);
        }
        proof {
            assert(files@.take(i + 1).drop_last() =~= files@.take(i as int));
            assert(files@.take(i + 1).last() == files@[i as int]);
        }
        i = i + 1;
    }
    proof {
        assert(files@.take(files@.len() as int) =~= files@);
    }
    snap
}


/// Whether some record of `out` holds path `p`.
pub open spec fn path_in(out: Seq<FileStatus>, p: Seq<char>) -> bool {
    exists|k: int| 0 <= k < out.len() && out[k].path@ == p
}

/// How many records of `s` carry status `st`.
pub open spec fn count_status(s: Seq<FileStatus>, st: Status) -> nat
    decreases s.len(),
{
    if s.len() == 0 {
        0
    } else {
        count_status(s.drop_last(), st) + if s.last().status == st {
            1nat
        } else {
            0nat
        }
    }
}

/// The same report, record for record, up to string copies.
pub open spec fn change_lists_equivalent(o1: Seq<FileStatus>, o2: Seq<FileStatus>) -> bool {
    &&& o1.len() == o2.len()
    &&& forall|k: int|
        0 <= k < o1.len() ==> o1[k].path@ == o2[k].path@ && o1[k].status == o2[k].status
}

/// Two strictly sorted, correctly classified reports over the same pair of
/// snapshots that mention the same paths are the same report.
proof fn lemma_sorted_same_paths_equivalent(
    prev: Map<Seq<char>, u64>,
    cur: Map<Seq<char>, u64>,
    o1: Seq<FileStatus>,
    o2: Seq<FileStatus>,
)
    requires
        forall|k1: int, k2: int| 0 <= k1 < k2 < o1.len() ==> chars_lt(o1[k1].path@, o1[k2].path@),
        forall|k1: int, k2: int| 0 <= k1 < k2 < o2.len() ==> chars_lt(o2[k1].path@, o2[k2].path@),
        forall|k: int| 0 <= k < o1.len() ==> change_status(prev, cur, o1[k].path@) == Some(o1[k].status),
        forall|k: int| 0 <= k < o2.len() ==> change_status(prev, cur, o2[k].path@) == Some(o2[k].status),
        forall|p: Seq<char>| path_in(o1, p) == path_in(o2, p),
    ensures
        change_lists_equivalent(o1, o2),
    decreases o1.len(),
{
    if o1.len() == 0 {
        if o2.len() > 0 {
            assert(path_in(o2, o2[0].path@));
            assert(path_in(o1, o2[0].path@));
            assert(false);
        }
    } else {
        if o2.len() == 0 {
            assert(path_in(o1, o1[0].path@));
            assert(path_in(o2, o1[0].path@));
            assert(false);
        }
        // the two head paths are equal
        assert(path_in(o1, o1[0].path@));
        assert(path_in(o2, o1[0].path@));
        let k2 = choose|k: int| 0 <= k < o2.len() && o2[k].path@ == o1[0].path@;
        assert(path_in(o2, o2[0].path@));
        assert(path_in(o1, o2[0].path@));
        let k1 = choose|k: int| 0 <= k < o1.len() && o1[k].path@ == o2[0].path@;
        if o1[0].path@ != o2[0].path@ {
            assert(k2 > 0);
            assert(chars_lt(o2[0].path@, o2[k2].path@));
            assert(k1 > 0);
            assert(chars_lt(o1[0].path@, o1[k1].path@));
            lemma_chars_lt_transitive(o1[0].path@, o1[k1].path@, o2[k2].path@);
            lemma_chars_lt_irreflexive(o1[0].path@);
            assert(false);
        }
        assert(o1[0].path@ == o2[0].path@);
        assert(o1[0].status == o2[0].status);
        let t1 = o1.drop_first();
        let t2 = o2.drop_first();
        assert forall|p: Seq<char>| true implies path_in(t1, p) == path_in(t2, p) by {
            if path_in(t1, p) {
                let k = choose|k: int| 0 <= k < t1.len() && t1[k].path@ == p;
                assert(o1[k + 1].path@ == p);
                assert(path_in(o1, p));
                assert(path_in(o2, p));
                let j = choose|j: int| 0 <= j < o2.len() && o2[j].path@ == p;
                if j == 0 {
                    assert(o1[0].path@ == p);
                    assert(chars_lt(o1[0].path@, o1[k + 1].path@));
                    lemma_chars_lt_irreflexive(p);
                    assert(false);
                }
                assert(t2[j - 1].path@ == p);
                assert(path_in(t2, p));
            }
            if path_in(t2, p) {
                let k = choose|k: int| 0 <= k < t2.len() && t2[k].path@ == p;
                assert(o2[k + 1].path@ == p);
                assert(path_in(o2, p));
                assert(path_in(o1, p));
                let j = choose|j: int| 0 <= j < o1.len() && o1[j].path@ == p;
                if j == 0 {
                    assert(o2[0].path@ == p);
                    assert(chars_lt(o2[0].path@, o2[k + 1].path@));
                    lemma_chars_lt_irreflexive(p);
                    assert(false);
                }
                assert(t1[j - 1].path@ == p);
                assert(path_in(t1, p));
            }
        }
        assert forall|a: int, b: int| 0 <= a < b < t1.len() implies chars_lt(
            t1[a].path@,
            t1[b].path@,
        ) by {
            assert(t1[a] == o1[a + 1]);
            assert(t1[b] == o1[b + 1]);
        }
        assert forall|a: int, b: int| 0 <= a < b < t2.len() implies chars_lt(
            t2[a].path@,
            t2[b].path@,
        ) by {
            assert(t2[a] == o2[a + 1]);
            assert(t2[b] == o2[b + 1]);
        }
        assert forall|k: int| 0 <= k < t1.len() implies change_status(prev, cur, t1[k].path@)
            == Some(t1[k].status) by {
            assert(t1[k] == o1[k + 1]);
        }
        assert forall|k: int| 0 <= k < t2.len() implies change_status(prev, cur, t2[k].path@)
            == Some(t2[k].status) by {
            assert(t2[k] == o2[k + 1]);
        }
        lemma_sorted_same_paths_equivalent(prev, cur, t1, t2);
        assert forall|k: int| 0 <= k < o1.len() implies o1[k].path@ == o2[k].path@ && o1[k].status
            == o2[k].status by {
            if k > 0 {
                assert(t1[k - 1] == o1[k]);
                assert(t2[k - 1] == o2[k]);
            }
        }
    }
}

/// The change report over a pair of snapshots is unique: any two correct
/// reports agree record for record. Change detection is deterministic.
pub proof fn lemma_change_list_unique(
    prev: Map<Seq<char>, u64>,
    cur: Map<Seq<char>, u64>,
    o1: Seq<FileStatus>,
    o2: Seq<FileStatus>,
)
    requires
        is_change_list(prev, cur, o1),
        is_change_list(prev, cur, o2),
    ensures
        change_lists_equivalent(o1, o2),
{
    assert forall|p: Seq<char>| true implies path_in(o1, p) == path_in(o2, p) by {
        if path_in(o1, p) {
            let k = choose|k: int| 0 <= k < o1.len() && o1[k].path@ == p;
            assert(change_status(prev, cur, p) is Some);
            assert(path_in(o2, p));
        }
        if path_in(o2, p) {
            let k = choose|k: int| 0 <= k < o2.len() && o2[k].path@ == p;
            assert(change_status(prev, cur, p) is Some);
            assert(path_in(o1, p));
        }
    }
    lemma_sorted_same_paths_equivalent(prev, cur, o1, o2);
}

/// Equivalent reports count every status alike.
pub proof fn lemma_equivalent_counts(o1: Seq<FileStatus>, o2: Seq<FileStatus>, st: Status)
    ensures
        change_lists_equivalent(o1, o2) ==> count_status(o1, st) == count_status(o2, st),
    decreases o1.len(),
{
    if change_lists_equivalent(o1, o2) && o1.len() > 0 {
        let t1 = o1.drop_last();
        let t2 = o2.drop_last();
        assert forall|k: int| 0 <= k < t1.len() implies t1[k].path@ == t2[k].path@ && t1[k].status
            == t2[k].status by {
            assert(t1[k] == o1[k]);
            assert(t2[k] == o2[k]);
        }
        lemma_equivalent_counts(t1, t2, st);
        assert(o1.last().status == o2.last().status);
    }
}

} // verus!
