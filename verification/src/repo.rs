use vstd::prelude::*;

use crate::errors::ArkError;
use crate::snapshot::Snapshot;
use crate::tracker::{
    change_status, count_status, is_change_list, lemma_change_list_unique,
    lemma_equivalent_counts, scan_changes, FileStatus, Status,
};
use crate::text::{
    chars_lt, decimal_of, is_blank, lemma_chars_lt_connected, lemma_chars_lt_transitive,
    lemma_decimal_of_injective, spec_is_blank, str_eq, str_lt, u64_to_string,
};

verus! {

/// Repository metadata, written once at initialization.
#[derive(Clone, Debug)]
pub struct ArkConfig {
    pub version: String,
    pub created_at: String,
    pub project_name: String,
}

/// A named, ordered history line: the ids of its commits, oldest first.
#[derive(Debug)]
pub struct Branch {
    pub name: String,
    pub commit_ids: Vec<String>,
}

/// An immutable commit record: a full snapshot together with its id,
/// message, timestamp and owning branch.
#[derive(Debug)]
pub struct Commit {
    pub id: String,
    pub message: String,
    pub timestamp: String,
    pub branch: String,
    pub files_snapshot: Snapshot,
}

/// The baseline snapshot a branch last recorded, used as the comparison
/// point for change detection.
#[derive(Debug)]
pub struct Baseline {
    pub branch: String,
    pub snapshot: Snapshot,
}

/// The whole repository state: configuration, the branch registry with the
/// HEAD pointer, the commit store, the per-branch baselines, and the
/// counter that makes fresh commit ids provably unique.
#[derive(Debug)]
pub struct Repo {
    pub config: ArkConfig,
    pub head: String,
    pub branches: Vec<Branch>,
    pub commits: Vec<Commit>,
    pub baselines: Vec<Baseline>,
    pub next_seq: u64,
}

/// Whether `id` is the decimal rendering of some counter value below
/// `bound`.
pub open spec fn id_from_counter(id: Seq<char>, bound: u64) -> bool {
    exists|k: nat| k < bound && id == decimal_of(k)
}

/// The views of a sequence of id strings.
pub open spec fn ids_view(v: Seq<String>) -> Seq<Seq<char>> {
    v.map_values(|s: String| s@)
}

/// Pairwise-distinct id views.
pub open spec fn distinct_ids(v: Seq<String>) -> bool {
    forall|i: int, j: int| 0 <= i < j < v.len() ==> v[i]@ != v[j]@
}

impl Repo {
    pub open spec fn has_branch(self, name: Seq<char>) -> bool {
        exists|i: int| 0 <= i < self.branches@.len() && self.branches@[i].name@ == name
    }

    pub open spec fn branch_at(self, name: Seq<char>) -> int {
        choose|i: int| 0 <= i < self.branches@.len() && self.branches@[i].name@ == name
    }

    /// The commit-id history of branch `name`, oldest first.
    pub open spec fn history_of(self, name: Seq<char>) -> Seq<Seq<char>> {
        ids_view(self.branches@[self.branch_at(name)].commit_ids@)
    }

    pub open spec fn has_commit(self, id: Seq<char>) -> bool {
        exists|i: int| 0 <= i < self.commits@.len() && self.commits@[i].id@ == id
    }

    pub open spec fn commit_at(self, id: Seq<char>) -> int {
        choose|i: int| 0 <= i < self.commits@.len() && self.commits@[i].id@ == id
    }

    /// The stored commit with id `id`.
    pub open spec fn commit_of(self, id: Seq<char>) -> Commit {
        self.commits@[self.commit_at(id)]
    }

    pub open spec fn has_baseline(self, name: Seq<char>) -> bool {
        exists|i: int| 0 <= i < self.baselines@.len() && self.baselines@[i].branch@ == name
    }

    pub open spec fn baseline_at(self, name: Seq<char>) -> int {
        choose|i: int| 0 <= i < self.baselines@.len() && self.baselines@[i].branch@ == name
    }

    /// The comparison baseline of branch `name`: its last recorded
    /// snapshot, or the empty mapping if it never recorded one.
    pub open spec fn baseline_of(self, name: Seq<char>) -> Map<Seq<char>, u64> {
        if self.has_baseline(name) {
            self.baselines@[self.baseline_at(name)].snapshot@
        } else {
            Map::<Seq<char>, u64>::empty()
        }
    }

    /// Whether some branch other than `except` lists commit id `id`.
    pub open spec fn id_listed_elsewhere(self, id: Seq<char>, except: Seq<char>) -> bool {
        exists|i: int, k: int|
            0 <= i < self.branches@.len() && self.branches@[i].name@ != except && 0 <= k
                < self.branches@[i].commit_ids@.len() && self.branches@[i].commit_ids@[k]@ == id
    }

    /// Every invariant of a consistent repository:
    /// branch names unique; "main" registered; HEAD resolves to a
    /// registered branch; commit ids unique and all drawn from counter
    /// values below `next_seq`; every id listed in a branch has a stored
    /// commit and no branch lists an id twice; baseline keys unique; all
    /// stored snapshots well-formed.
    pub open spec fn wf(self) -> bool {
        &&& forall|i: int, j: int|
            0 <= i < j < self.branches@.len() ==> self.branches@[i].name@
                != self.branches@[j].name@
        &&& self.has_branch("main"@)
        &&& self.has_branch(self.head@)
        &&& forall|i: int, j: int|
            0 <= i < j < self.commits@.len() ==> self.commits@[i].id@ != self.commits@[j].id@
        &&& forall|i: int|
            0 <= i < self.commits@.len() ==> id_from_counter(
                #[trigger] self.commits@[i].id@,
                self.next_seq,
            )
        &&& forall|i: int, k: int|
            0 <= i < self.branches@.len() && 0 <= k < self.branches@[i].commit_ids@.len()
                ==> self.has_commit(self.branches@[i].commit_ids@[k]@)
        &&& forall|i: int| 0 <= i < self.branches@.len() ==> distinct_ids(self.branches@[i].commit_ids@)
        &&& forall|i: int, j: int|
            0 <= i < j < self.baselines@.len() ==> self.baselines@[i].branch@
                != self.baselines@[j].branch@
        &&& forall|i: int| 0 <= i < self.baselines@.len() ==> self.baselines@[i].snapshot.wf()
        &&& forall|i: int| 0 <= i < self.commits@.len() ==> self.commits@[i].files_snapshot.wf()
    }
}

/// A commit present in one state is present in any state with the same
/// commit store.
pub proof fn lemma_has_commit_stable(pre: Repo, post: Repo, id: Seq<char>)
    requires
        pre.has_commit(id),
        post.commits@ == pre.commits@,
    ensures
        post.has_commit(id),
{
    let w = choose|w: int| 0 <= w < pre.commits@.len() && pre.commits@[w].id@ == id;
    assert(post.commits@[w].id@ == id);
}

/// When branch names are unique, looking a branch up by the name of entry
/// `i` yields entry `i`.
pub proof fn lemma_branch_lookup(r: Repo, i: int)
    requires
        forall|a: int, b: int|
            0 <= a < b < r.branches@.len() ==> r.branches@[a].name@ != r.branches@[b].name@,
        0 <= i < r.branches@.len(),
    ensures
        r.has_branch(r.branches@[i].name@),
        r.branch_at(r.branches@[i].name@) == i,
        r.history_of(r.branches@[i].name@) == ids_view(r.branches@[i].commit_ids@),
{
    assert(r.has_branch(r.branches@[i].name@));
    let j = r.branch_at(r.branches@[i].name@);
    if j != i {
        assert(false);
    }
}

/// When commit ids are unique, looking a commit up by the id of entry `i`
/// yields entry `i`.
pub proof fn lemma_commit_lookup(r: Repo, i: int)
    requires
        forall|a: int, b: int|
            0 <= a < b < r.commits@.len() ==> r.commits@[a].id@ != r.commits@[b].id@,
        0 <= i < r.commits@.len(),
    ensures
        r.has_commit(r.commits@[i].id@),
        r.commit_at(r.commits@[i].id@) == i,
        r.commit_of(r.commits@[i].id@) == r.commits@[i],
{
    assert(r.has_commit(r.commits@[i].id@));
    let j = r.commit_at(r.commits@[i].id@);
    if j != i {
        assert(false);
    }
}

/// When baseline keys are unique, looking a baseline up by the branch of
/// entry `i` yields entry `i`.
pub proof fn lemma_baseline_lookup(r: Repo, i: int)
    requires
        forall|a: int, b: int|
            0 <= a < b < r.baselines@.len() ==> r.baselines@[a].branch@ != r.baselines@[b].branch@,
        0 <= i < r.baselines@.len(),
    ensures
        r.has_baseline(r.baselines@[i].branch@),
        r.baseline_at(r.baselines@[i].branch@) == i,
        r.baseline_of(r.baselines@[i].branch@) == r.baselines@[i].snapshot@,
{
    assert(r.has_baseline(r.baselines@[i].branch@));
    let j = r.baseline_at(r.baselines@[i].branch@);
    if j != i {
        assert(false);
    }
}

/// Relies on chrono's `Local::now` and `DateTime::format`: renders the
/// current local time as year-month-day hour:minute:second, where the
/// year is zero-padded to at least four digits, so at least 19 characters
/// whatever moment the clock reports.
#[verifier::external_body]
fn now_string() -> (r: String)
    ensures
        r@.len() >= 19,
{
    chrono::Local::now().format("%Y-%m-%d %H:%M:%S").to_string()
}

/// Copy a list of id strings.
fn clone_ids(v: &Vec<String>) -> (r: Vec<String>)
    ensures
        r@.len() == v@.len(),
        forall|k: int| 0 <= k < v@.len() ==> r@[k]@ == v@[k]@,
        ids_view(r@) == ids_view(v@),
{
    let mut r: Vec<String> = Vec::new();
    let mut i: usize = 0;
    while i < v.len()
        invariant
            i <= v@.len(),
            r@.len() == i,
            forall|k: int| 0 <= k < i ==> r@[k]@ == v@[k]@,
        decreases v@.len() - i,
    {
        r.push(v[i].clone());
        i = i + 1;
    }
    proof {
        assert(ids_view(r@) =~= ids_view(v@));
    }
    r
}

impl Snapshot {
    /// Copy a snapshot, entry by entry.
    pub fn duplicate(&self) -> (r: Snapshot)
        requires
            self.wf(),
        ensures
            r.entries@.len() == self.entries@.len(),
            forall|k: int|
                0 <= k < self.entries@.len() ==> r.entries@[k].path@ == self.entries@[k].path@
                    && r.entries@[k].fingerprint == self.entries@[k].fingerprint,
            r.wf(),
            r@ == self@,
    {
        let mut entries: Vec<crate::snapshot::SnapEntry> = Vec::new();
        let mut i: usize = 0;
        while i < self.entries.len()
            invariant
                i <= self.entries@.len(),
                entries@.len() == i,
                forall|k: int|
                    0 <= k < i ==> entries@[k].path@ == self.entries@[k].path@
                        && entries@[k].fingerprint == self.entries@[k].fingerprint,
            decreases self.entries@.len() - i,
        {
            entries.push(
                crate::snapshot::SnapEntry {
                    path: self.entries[i].path.clone(),
                    fingerprint: self.entries[i].fingerprint,
                },
            );
            i = i + 1;
        }
        let r = Snapshot { entries };
        proof {
            crate::snapshot::lemma_sorted_implies_distinct(self.entries@);
            assert forall|a: int, b: int| 0 <= a < b < r.entries@.len() implies crate::text::chars_lt(
                r.entries@[a].path@,
                r.entries@[b].path@,
            ) by {
                assert(r.entries@[a].path@ == self.entries@[a].path@);
                assert(r.entries@[b].path@ == self.entries@[b].path@);
            }
            assert(r.wf());
            crate::snapshot::lemma_sorted_implies_distinct(r.entries@);
            assert forall|q: Seq<char>| true implies crate::snapshot::has_path(r.entries@, q)
                == crate::snapshot::has_path(self.entries@, q) by {
                if crate::snapshot::has_path(r.entries@, q) {
                    let k = choose|k: int|
                        0 <= k < r.entries@.len() && r.entries@[k].path@ == q;
                    assert(self.entries@[k].path@ == q);
                }
                if crate::snapshot::has_path(self.entries@, q) {
                    let k = choose|k: int|
                        0 <= k < self.entries@.len() && self.entries@[k].path@ == q;
                    assert(r.entries@[k].path@ == q);
                }
            }
            assert forall|q: Seq<char>| crate::snapshot::snap_map(r.entries@).dom().contains(q)
                implies crate::snapshot::snap_map(r.entries@)[q] == crate::snapshot::snap_map(
                self.entries@,
            )[q] by {
                let k1 = crate::snapshot::path_index(r.entries@, q);
                let k2 = crate::snapshot::path_index(self.entries@, q);
                assert(0 <= k1 < r.entries@.len() && r.entries@[k1].path@ == q);
                assert(0 <= k2 < self.entries@.len() && self.entries@[k2].path@ == q);
                assert(self.entries@[k1].path@ == q);
                if k1 != k2 {
                    assert(false);
                }
            }
            assert(r@ =~= self@);
        }
        r
    }
}

/// Insert `name` into a strictly sorted list of names, keeping it sorted.
/// Inserting a fresh name at its sorted position keeps a name list
/// strictly sorted and adds exactly that name.
#[verifier::rlimit(100)]
proof fn lemma_name_inserted(s0: Seq<String>, s1: Seq<String>, e: String, i: int)
    requires
        0 <= i <= s0.len(),
        s1 == s0.insert(i, e),
        forall|a: int, b: int| 0 <= a < b < s0.len() ==> chars_lt(s0[a]@, s0[b]@),
        forall|k: int| 0 <= k < s0.len() ==> s0[k]@ != e@,
        forall|k: int| 0 <= k < i ==> chars_lt(s0[k]@, e@),
        i < s0.len() ==> chars_lt(e@, s0[i]@),
    ensures
        s1.len() == s0.len() + 1,
        forall|a: int, b: int| 0 <= a < b < s1.len() ==> chars_lt(s1[a]@, s1[b]@),
        forall|k: int|
            0 <= k < s1.len() ==> s1[k]@ == e@ || exists|j: int|
                0 <= j < s0.len() && s0[j]@ == s1[k]@,
        exists|k: int| 0 <= k < s1.len() && s1[k]@ == e@,
        forall|j: int|
            0 <= j < s0.len() ==> exists|k: int| 0 <= k < s1.len() && s1[k]@ == #[trigger] s0[j]@,
{
    let nm = e@;
    s0.insert_ensures(i, e);
    assert(s1[i]@ == nm);
    assert forall|a: int, b: int| 0 <= a < b < s1.len() implies chars_lt(s1[a]@, s1[b]@) by {
        if a < i && b == i {
            assert(s1[a]@ == s0[a]@);
        } else if a == i && b > i {
            assert(s1[(b - 1) + 1]@ == s0[b - 1]@);
            assert(chars_lt(nm, s0[i]@));
            if b - 1 > i {
                lemma_chars_lt_transitive(nm, s0[i]@, s0[b - 1]@);
            }
        } else if a < i && b > i {
            assert(s1[a]@ == s0[a]@);
            assert(s1[(b - 1) + 1]@ == s0[b - 1]@);
            assert(chars_lt(s0[a]@, s0[b - 1]@));
        } else if a < i && b < i {
            assert(s1[a]@ == s0[a]@);
            assert(s1[b]@ == s0[b]@);
        } else {
            assert(a > i);
            assert(s1[(a - 1) + 1]@ == s0[a - 1]@);
            assert(s1[(b - 1) + 1]@ == s0[b - 1]@);
            assert(chars_lt(s0[a - 1]@, s0[b - 1]@));
        }
    }
    assert forall|k: int| 0 <= k < s1.len() implies s1[k]@ == nm || exists|j: int|
        0 <= j < s0.len() && s0[j]@ == s1[k]@ by {
        if k < i {
            assert(s0[k]@ == s1[k]@);
        } else if k > i {
            assert(s1[(k - 1) + 1]@ == s0[k - 1]@);
        }
    }
    assert forall|j: int| 0 <= j < s0.len() implies exists|k: int|
        0 <= k < s1.len() && s1[k]@ == #[trigger] s0[j]@ by {
        if j < i {
            assert(s1[j]@ == s0[j]@);
        } else {
            assert(s1[j + 1]@ == s0[j]@);
        }
    }
}

fn insert_name_sorted(v: &mut Vec<String>, name: String)
    requires
        forall|a: int, b: int| 0 <= a < b < old(v)@.len() ==> chars_lt(old(v)@[a]@, old(v)@[b]@),
        forall|k: int| 0 <= k < old(v)@.len() ==> old(v)@[k]@ != name@,
    ensures
        final(v)@.len() == old(v)@.len() + 1,
        forall|a: int, b: int| 0 <= a < b < final(v)@.len() ==> chars_lt(final(v)@[a]@, final(v)@[b]@),
        forall|k: int|
            0 <= k < final(v)@.len() ==> final(v)@[k]@ == name@ || exists|j: int|
                0 <= j < old(v)@.len() && old(v)@[j]@ == final(v)@[k]@,
        exists|k: int| 0 <= k < final(v)@.len() && final(v)@[k]@ == name@,
        forall|j: int|
            0 <= j < old(v)@.len() ==> exists|k: int|
                0 <= k < final(v)@.len() && final(v)@[k]@ == #[trigger] old(v)@[j]@,
{
    let ghost s0 = v@;
    let n = v.len();
    let mut i: usize = 0;
    while i < n && str_lt(v[i].as_str(), name.as_str())
        invariant
            n == v@.len(),
            v@ == s0,
            i <= n,
            forall|k: int| 0 <= k < i ==> chars_lt(s0[k]@, name@),
        decreases n - i,
    {
        i = i + 1;
    }
    proof {
        if i < n {
            lemma_chars_lt_connected(s0[i as int]@, name@);
            assert(chars_lt(name@, s0[i as int]@));
        }
    }
    let ghost nm = name@;
    v.insert(i, name);
    proof {
        let s1 = v@;
        let e = s1[i as int];
        assert(s1 == s0.insert(i as int, e));
        assert(e@ == nm);
        lemma_name_inserted(s0, s1, e, i as int);
    }
}

/// Exactly what a successful save does to the store: one fresh commit
/// appended, the active branch's history grown by its id, that branch's
/// baseline replaced by the saved snapshot, and nothing else touched.
pub open spec fn save_commit_post(
    pre: Repo,
    post: Repo,
    id: Seq<char>,
    message: Seq<char>,
    snap: Map<Seq<char>, u64>,
) -> bool {
    &&& post.wf()
    &&& id == decimal_of(pre.next_seq as nat)
    &&& !pre.has_commit(id)
    &&& post.head == pre.head
    &&& post.config == pre.config
    &&& post.next_seq == pre.next_seq + 1
    &&& forall|n: Seq<char>| post.has_branch(n) == pre.has_branch(n)
    &&& post.history_of(pre.head@) == pre.history_of(pre.head@).push(id)
    &&& forall|n: Seq<char>|
        pre.has_branch(n) && n != pre.head@ ==> post.history_of(n) == pre.history_of(n)
    &&& post.baseline_of(pre.head@) == snap
    &&& forall|n: Seq<char>| n != pre.head@ ==> post.baseline_of(n) == pre.baseline_of(n)
    &&& post.has_commit(id)
    &&& post.commit_of(id).id@ == id
    &&& post.commit_of(id).message@ == message
    &&& post.commit_of(id).branch@ == pre.head@
    &&& post.commit_of(id).files_snapshot@ == snap
    &&& post.commit_of(id).files_snapshot.wf()
    &&& forall|c: Seq<char>| post.has_commit(c) == (pre.has_commit(c) || c == id)
    &&& forall|c: Seq<char>| pre.has_commit(c) ==> post.commit_of(c) == pre.commit_of(c)
}

/// What undo reports back: the id it removed and the commit it restored
/// the baseline to.
#[derive(Debug)]
pub struct UndoOutcome {
    pub removed_id: String,
    pub restored_id: String,
    pub message: String,
    pub timestamp: String,
}

/// Why undo refuses, as a function of the state: an empty history has
/// nothing to undo, and the genesis commit cannot be undone.
pub open spec fn undo_error(r: Repo) -> Option<ArkError> {
    if r.history_of(r.head@).len() == 0 {
        Some(ArkError::NothingToUndo)
    } else if r.history_of(r.head@).len() == 1 {
        Some(ArkError::FirstSave)
    } else {
        None
    }
}

/// Exactly what a successful undo does: the last id popped from the
/// active branch's history, the baseline restored to the previous
/// commit's snapshot, the popped record deleted unless another branch
/// still lists it, and nothing else touched.
pub open spec fn undo_post(pre: Repo, post: Repo, removed: Seq<char>, restored: Seq<char>) -> bool {
    &&& post.wf()
    &&& pre.history_of(pre.head@).len() >= 2
    &&& removed == pre.history_of(pre.head@).last()
    &&& restored == pre.history_of(pre.head@)[pre.history_of(pre.head@).len() - 2]
    &&& post.head == pre.head
    &&& post.config == pre.config
    &&& post.next_seq == pre.next_seq
    &&& forall|n: Seq<char>| post.has_branch(n) == pre.has_branch(n)
    &&& post.history_of(pre.head@) == pre.history_of(pre.head@).drop_last()
    &&& forall|n: Seq<char>|
        pre.has_branch(n) && n != pre.head@ ==> post.history_of(n) == pre.history_of(n)
    &&& post.baseline_of(pre.head@) == pre.commit_of(restored).files_snapshot@
    &&& forall|n: Seq<char>| n != pre.head@ ==> post.baseline_of(n) == pre.baseline_of(n)
    &&& forall|c: Seq<char>| c != removed ==> post.has_commit(c) == pre.has_commit(c)
    &&& forall|c: Seq<char>|
        c != removed && pre.has_commit(c) ==> post.commit_of(c) == pre.commit_of(c)
    &&& (pre.id_listed_elsewhere(removed, pre.head@) ==> post.has_commit(removed)
        && post.commit_of(removed) == pre.commit_of(removed))
    &&& (!pre.id_listed_elsewhere(removed, pre.head@) ==> !post.has_commit(removed))
}

/// The pieces of an automatic save message, joined with ", ".
pub open spec fn join_comma(parts: Seq<Seq<char>>) -> Seq<char>
    decreases parts.len(),
{
    if parts.len() == 0 {
        Seq::<char>::empty()
    } else if parts.len() == 1 {
        parts[0]
    } else {
        join_comma(parts.drop_last()) + ", "@ + parts.last()
    }
}

/// The count summaries an automatic save message mentions: one for each
/// non-zero count, in the order new, modified, deleted.
pub open spec fn auto_message_parts(n: nat, m: nat, d: nat) -> Seq<Seq<char>> {
    (if n > 0 {
        seq![decimal_of(n) + " new"@]
    } else {
        Seq::<Seq<char>>::empty()
    }) + (if m > 0 {
        seq![decimal_of(m) + " modified"@]
    } else {
        Seq::<Seq<char>>::empty()
    }) + (if d > 0 {
        seq![decimal_of(d) + " deleted"@]
    } else {
        Seq::<Seq<char>>::empty()
    })
}

/// The message a save records when the caller supplies none.
pub open spec fn spec_auto_message(n: nat, m: nat, d: nat) -> Seq<char> {
    "Auto: "@ + join_comma(auto_message_parts(n, m, d))
}

/// Whether `msg` is the automatic summary of the (unique) change report
/// between `prev` and `cur`.
pub open spec fn auto_msg_for(
    prev: Map<Seq<char>, u64>,
    cur: Map<Seq<char>, u64>,
    msg: Seq<char>,
) -> bool {
    forall|cl: Seq<FileStatus>|
        is_change_list(prev, cur, cl) ==> msg == spec_auto_message(
            count_status(cl, Status::New),
            count_status(cl, Status::Modified),
            count_status(cl, Status::Deleted),
        )
}

/// Which message a save records: the caller's, unless it is absent or
/// blank, in which case the automatic summary of the change report.
pub open spec fn message_used(
    message: Option<&str>,
    prev: Map<Seq<char>, u64>,
    cur: Map<Seq<char>, u64>,
    msg: Seq<char>,
) -> bool {
    match message {
        Some(given) => if !spec_is_blank(given@) {
            msg == given@
        } else {
            auto_msg_for(prev, cur, msg)
        },
        None => auto_msg_for(prev, cur, msg),
    }
}

/// The outcome of a save request: either a new commit id, or the finding
/// that there was nothing to save. An empty change list is a no-op, not
/// an error.
#[derive(Debug)]
pub enum SaveOutcome {
    Saved(String),
    NothingToSave,
}

/// Whether the on-disk markers of a repository are both present: the
/// control directory and the configuration record inside it.
pub fn is_initialized(has_control_dir: bool, has_config: bool) -> (r: bool)
    ensures
        r == (has_control_dir && has_config),
{
    has_control_dir && has_config
}

/// Set up a fresh repository state: the "main" branch with an empty
/// history, HEAD pointing at it, no commits and no baselines. Fails when
/// the directory already holds a repository.
pub fn init(project_name: &str, already_initialized: bool) -> (r: Result<Repo, ArkError>)
    ensures
        match r {
            Ok(repo) => {
                &&& !already_initialized
                &&& repo.wf()
                &&& repo.head@ == "main"@
                &&& repo.branches@.len() == 1
                &&& repo.branches@[0].name@ == "main"@
                &&& repo.history_of("main"@).len() == 0
                &&& repo.commits@.len() == 0
                &&& repo.baselines@.len() == 0
                &&& repo.next_seq == 0
                &&& repo.config.project_name@ == project_name@
                &&& repo.config.version@ == "0.1.0"@
            },
            Err(e) => e == ArkError::AlreadyInitialized && already_initialized,
        },
{
    if already_initialized {
        return Err(ArkError::AlreadyInitialized);
    }
    let main = Branch { name: String::from_str("main"), commit_ids: Vec::new() };
    let repo = Repo {
        config: ArkConfig {
            version: String::from_str("0.1.0"),
            created_at: now_string(),
            project_name: project_name.to_owned(),
        },
        head: String::from_str("main"),
        branches: vec![main],
        commits: Vec::new(),
        baselines: Vec::new(),
        next_seq: 0,
    };
    proof {
        assert(repo.branches@[0].name@ == "main"@);
        assert(repo.has_branch("main"@));
        lemma_branch_lookup(repo, 0);
        assert(repo.history_of("main"@) =~= Seq::<Seq<char>>::empty());
    }
    Ok(repo)
}

impl Repo {
    /// The name of the currently active branch.
    pub fn get_current_branch(&self) -> (r: String)
        ensures
            r@ == self.head@,
    {
        self.head.clone()
    }

    /// Whether a branch of this name is registered.
    pub fn branch_exists(&self, name: &str) -> (r: bool)
        ensures
            r == self.has_branch(name@),
    {
        match self.find_branch_index(name) {
            Some(_) => true,
            None => false,
        }
    }

    /// The index of the branch named `name`, if any.
    fn find_branch_index(&self, name: &str) -> (r: Option<usize>)
        ensures
            match r {
                Some(i) => 0 <= i < self.branches@.len() && self.branches@[i as int].name@
                    == name@,
                None => !self.has_branch(name@),
            },
    {
        let mut i: usize = 0;
        while i < self.branches.len()
            invariant
                i <= self.branches@.len(),
                forall|k: int| 0 <= k < i ==> self.branches@[k].name@ != name@,
            decreases self.branches@.len() - i,
        {
            if str_eq(self.branches[i].name.as_str(), name) {
                return Some(i);
            }
            i = i + 1;
        }
        None
    }

    /// The index of the commit with id `id`, if any.
    fn find_commit_index(&self, id: &str) -> (r: Option<usize>)
        ensures
            match r {
                Some(i) => 0 <= i < self.commits@.len() && self.commits@[i as int].id@ == id@,
                None => !self.has_commit(id@),
            },
    {
        let mut i: usize = 0;
        while i < self.commits.len()
            invariant
                i <= self.commits@.len(),
                forall|k: int| 0 <= k < i ==> self.commits@[k].id@ != id@,
            decreases self.commits@.len() - i,
        {
            if str_eq(self.commits[i].id.as_str(), id) {
                return Some(i);
            }
            i = i + 1;
        }
        None
    }

    /// The index of the baseline recorded for branch `name`, if any.
    fn find_baseline_index(&self, name: &str) -> (r: Option<usize>)
        ensures
            match r {
                Some(i) => 0 <= i < self.baselines@.len() && self.baselines@[i as int].branch@
                    == name@,
                None => !self.has_baseline(name@),
            },
    {
        let mut i: usize = 0;
        while i < self.baselines.len()
            invariant
                i <= self.baselines@.len(),
                forall|k: int| 0 <= k < i ==> self.baselines@[k].branch@ != name@,
            decreases self.baselines@.len() - i,
        {
            if str_eq(self.baselines[i].branch.as_str(), name) {
                return Some(i);
            }
            i = i + 1;
        }
        None
    }

    /// Move HEAD to branch `name`. A pure label change: the working tree
    /// and every branch's history and baseline stay as they are.
    pub fn set_current_branch(&mut self, name: &str) -> (r: Result<(), ArkError>)
        requires
            old(self).wf(),
        ensures
            final(self).wf(),
            match r {
                Ok(()) => {
                    &&& old(self).has_branch(name@)
                    &&& final(self).head@ == name@
                    &&& final(self).config == old(self).config
                    &&& final(self).branches == old(self).branches
                    &&& final(self).commits == old(self).commits
                    &&& final(self).baselines == old(self).baselines
                    &&& final(self).next_seq == old(self).next_seq
                },
                Err(e) => e == ArkError::NotFound && !old(self).has_branch(name@) && *final(self)
                    == *old(self),
            },
    {
        match self.find_branch_index(name) {
            Some(i) => {
                proof {
                    lemma_branch_lookup(*self, i as int);
                }
                self.head = name.to_owned();
                proof {
                    assert(self.branches@[i as int].name@ == name@);
                    assert(self.has_branch(self.head@));
                    let m = old(self).branch_at("main"@);
                    assert(old(self).branches@[m].name@ == "main"@);
                    assert(self.branches@[m].name@ == "main"@);
                    assert(self.has_branch("main"@));
                    assert(forall|a: int, b: int|
                        0 <= a < b < self.branches@.len() ==> self.branches@[a].name@
                            != self.branches@[b].name@);
                    assert(forall|a: int, b: int|
                        0 <= a < b < self.commits@.len() ==> self.commits@[a].id@
                            != self.commits@[b].id@);
                    assert(forall|k: int|
                        0 <= k < self.commits@.len() ==> id_from_counter(
                            #[trigger] self.commits@[k].id@,
                            self.next_seq,
                        ));
                    assert(forall|a: int, k: int|
                        0 <= a < self.branches@.len() && 0 <= k
                            < self.branches@[a].commit_ids@.len() ==> self.has_commit(
                            self.branches@[a].commit_ids@[k]@,
                        ));
                    assert(forall|a: int|
                        0 <= a < self.branches@.len() ==> distinct_ids(
                            self.branches@[a].commit_ids@,
                        ));
                    assert(forall|a: int, b: int|
                        0 <= a < b < self.baselines@.len() ==> self.baselines@[a].branch@
                            != self.baselines@[b].branch@);
                    assert(forall|a: int|
                        0 <= a < self.baselines@.len() ==> self.baselines@[a].snapshot.wf());
                    assert(forall|a: int|
                        0 <= a < self.commits@.len() ==> self.commits@[a].files_snapshot.wf());
                    assert(self.wf());
                }
                Ok(())
            },
            None => Err(ArkError::NotFound),
        }
    }

    /// A fresh commit id: the decimal rendering of the id counter. Unique
    /// against every id already in the store.
    pub fn generate_id(&self) -> (r: String)
        requires
            self.wf(),
        ensures
            r@ == decimal_of(self.next_seq as nat),
            !self.has_commit(r@),
    {
        let r = u64_to_string(self.next_seq);
        proof {
            assert forall|i: int| 0 <= i < self.commits@.len() implies self.commits@[i].id@ != r@
                by {
                assert(id_from_counter(self.commits@[i].id@, self.next_seq));
                let k = choose|k: nat| k < self.next_seq && self.commits@[i].id@ == decimal_of(k);
                lemma_decimal_of_injective(k, self.next_seq as nat);
            }
        }
        r
    }

    /// The active branch's commit-id history, oldest first.
    pub fn load_history(&self) -> (r: Vec<String>)
        requires
            self.wf(),
        ensures
            ids_view(r@) == self.history_of(self.head@),
    {
        let idx = self.find_branch_index(self.head.as_str());
        match idx {
            Some(i) => {
                proof {
                    lemma_branch_lookup(*self, i as int);
                }
                clone_ids(&self.branches[i].commit_ids)
            },
            None => {
                proof {
                    assert(false);
                }
                Vec::new()
            },
        }
    }

    /// The registered branch named `name`, as a copy.
    pub fn load_branch(&self, name: &str) -> (r: Result<Branch, ArkError>)
        requires
            self.wf(),
        ensures
            match r {
                Ok(b) => {
                    &&& self.has_branch(name@)
                    &&& b.name@ == name@
                    &&& ids_view(b.commit_ids@) == self.history_of(name@)
                },
                Err(e) => e == ArkError::NotFound && !self.has_branch(name@),
            },
    {
        match self.find_branch_index(name) {
            Some(i) => {
                proof {
                    lemma_branch_lookup(*self, i as int);
                }
                Ok(
                    Branch {
                        name: self.branches[i].name.clone(),
                        commit_ids: clone_ids(&self.branches[i].commit_ids),
                    },
                )
            },
            None => Err(ArkError::NotFound),
        }
    }

    /// The stored commit with id `id`, as a copy.
    pub fn load_commit(&self, id: &str) -> (r: Result<Commit, ArkError>)
        requires
            self.wf(),
        ensures
            match r {
                Ok(c) => {
                    &&& self.has_commit(id@)
                    &&& c.id@ == id@
                    &&& c.message@ == self.commit_of(id@).message@
                    &&& c.timestamp@ == self.commit_of(id@).timestamp@
                    &&& c.branch@ == self.commit_of(id@).branch@
                    &&& c.files_snapshot@ == self.commit_of(id@).files_snapshot@
                    &&& c.files_snapshot.wf()
                },
                Err(e) => e == ArkError::NotFound && !self.has_commit(id@),
            },
    {
        match self.find_commit_index(id) {
            Some(i) => {
                proof {
                    lemma_commit_lookup(*self, i as int);
                }
                let c = &self.commits[i];
                Ok(
                    Commit {
                        id: c.id.clone(),
                        message: c.message.clone(),
                        timestamp: c.timestamp.clone(),
                        branch: c.branch.clone(),
                        files_snapshot: c.files_snapshot.duplicate(),
                    },
                )
            },
            None => Err(ArkError::NotFound),
        }
    }

    /// The active branch's baseline snapshot: what change detection
    /// compares the working tree against. Empty when the branch never
    /// recorded one.
    /// Register a new branch whose history is a copy of the active
    /// branch's history at this moment: branching is from HEAD. The new
    /// branch records no baseline of its own yet.
    pub fn create_branch(&mut self, name: &str) -> (r: Result<(), ArkError>)
        requires
            old(self).wf(),
        ensures
            final(self).wf(),
            match r {
                Ok(()) => {
                    &&& !old(self).has_branch(name@)
                    &&& forall|n: Seq<char>|
                        final(self).has_branch(n) == (old(self).has_branch(n) || n == name@)
                    &&& final(self).history_of(name@) == old(self).history_of(old(self).head@)
                    &&& forall|n: Seq<char>|
                        old(self).has_branch(n) ==> final(self).history_of(n) == old(self).history_of(n)
                    &&& final(self).head == old(self).head
                    &&& final(self).config == old(self).config
                    &&& final(self).commits == old(self).commits
                    &&& final(self).baselines == old(self).baselines
                    &&& final(self).next_seq == old(self).next_seq
                },
                Err(e) => e == ArkError::AlreadyExists && old(self).has_branch(name@) && *final(self) == *old(self),
            },
    {
        if self.branch_exists(name) {
            return Err(ArkError::AlreadyExists);
        }
        let head_idx = match self.find_branch_index(self.head.as_str()) {
            Some(i) => i,
            None => {
                proof {
                    assert(false);
                }
                0
            },
        };
        proof {
            lemma_branch_lookup(*self, head_idx as int);
        }
        let ids = clone_ids(&self.branches[head_idx].commit_ids);
        let new_branch = Branch { name: name.to_owned(), commit_ids: ids };
        let ghost s0 = self.branches@;
        let ghost nb = new_branch;
        self.branches.push(new_branch);
        proof {
            let s1 = self.branches@;
            assert(s1 == s0.push(nb));
            let last = s0.len() as int;
            assert(s1[last].name@ == name@);
            assert forall|a: int, b: int| 0 <= a < b < s1.len() implies s1[a].name@ != s1[b].name@
                by {
                if b == last {
                    assert(s1[a] == s0[a]);
                    assert(old(self).has_branch(s0[a].name@));
                }
            }
            assert forall|n: Seq<char>| true implies self.has_branch(n) == (old(self).has_branch(n)
                || n == name@) by {
                if old(self).has_branch(n) {
                    let j = old(self).branch_at(n);
                    assert(s1[j].name@ == n);
                }
                if n == name@ {
                    assert(s1[last].name@ == n);
                }
                if self.has_branch(n) && n != name@ {
                    let j = choose|j: int| 0 <= j < s1.len() && s1[j].name@ == n;
                    assert(j != last);
                    assert(s0[j].name@ == n);
                }
            }
            lemma_branch_lookup(*self, last);
            assert(self.history_of(name@) == ids_view(nb.commit_ids@));
            assert(self.history_of(name@) == old(self).history_of(old(self).head@));
            assert forall|n: Seq<char>| old(self).has_branch(n) implies self.history_of(n) == old(self).history_of(n) by {
                let j = old(self).branch_at(n);
                assert(s0[j].name@ == n);
                assert(s1[j] == s0[j]);
                lemma_branch_lookup(*old(self), j);
                lemma_branch_lookup(*self, j);
            }
            assert(self.has_branch("main"@));
            assert(self.has_branch(self.head@));
            assert forall|a: int, k: int|
                0 <= a < s1.len() && 0 <= k < s1[a].commit_ids@.len() implies self.has_commit(
                s1[a].commit_ids@[k]@,
            ) by {
                if a == last {
                    assert(nb.commit_ids@[k]@ == s0[head_idx as int].commit_ids@[k]@);
                    assert(old(self).has_commit(s0[head_idx as int].commit_ids@[k]@));
                    lemma_has_commit_stable(*old(self), *self, s1[a].commit_ids@[k]@);
                } else {
                    assert(s1[a] == s0[a]);
                    assert(old(self).has_commit(s0[a].commit_ids@[k]@));
                    lemma_has_commit_stable(*old(self), *self, s1[a].commit_ids@[k]@);
                }
            }
            assert forall|a: int| 0 <= a < s1.len() implies distinct_ids(s1[a].commit_ids@) by {
                if a == last {
                    assert(distinct_ids(s0[head_idx as int].commit_ids@));
                    assert forall|x: int, y: int|
                        0 <= x < y < nb.commit_ids@.len() implies nb.commit_ids@[x]@
                        != nb.commit_ids@[y]@ by {
                        assert(nb.commit_ids@[x]@ == s0[head_idx as int].commit_ids@[x]@);
                        assert(nb.commit_ids@[y]@ == s0[head_idx as int].commit_ids@[y]@);
                    }
                } else {
                    assert(s1[a] == s0[a]);
                }
            }
            assert(self.wf());
        }
        Ok(())
    }

    /// Remove a branch from the registry. "main" and the currently active
    /// branch are protected; commits the branch listed stay in the store.
    pub fn delete_branch(&mut self, name: &str) -> (r: Result<(), ArkError>)
        requires
            old(self).wf(),
        ensures
            final(self).wf(),
            match r {
                Ok(()) => {
                    &&& name@ != "main"@
                    &&& name@ != old(self).head@
                    &&& old(self).has_branch(name@)
                    &&& forall|n: Seq<char>|
                        final(self).has_branch(n) == (old(self).has_branch(n) && n != name@)
                    &&& forall|n: Seq<char>|
                        old(self).has_branch(n) && n != name@ ==> final(self).history_of(n) == old(self).history_of(n)
                    &&& final(self).head == old(self).head
                    &&& final(self).config == old(self).config
                    &&& final(self).commits == old(self).commits
                    &&& final(self).baselines == old(self).baselines
                    &&& final(self).next_seq == old(self).next_seq
                },
                Err(e) => {
                    &&& *final(self) == *old(self)
                    &&& (name@ == "main"@ ==> e == ArkError::Protected)
                    &&& (name@ != "main"@ && name@ == old(self).head@ ==> e == ArkError::Protected)
                    &&& (name@ != "main"@ && name@ != old(self).head@ ==> e == ArkError::NotFound
                        && !old(self).has_branch(name@))
                },
            },
    {
        if str_eq(name, "main") {
            return Err(ArkError::Protected);
        }
        if str_eq(name, self.head.as_str()) {
            return Err(ArkError::Protected);
        }
        let idx = match self.find_branch_index(name) {
            Some(i) => i,
            None => {
                return Err(ArkError::NotFound);
            },
        };
        let ghost s0 = self.branches@;
        self.branches.remove(idx);
        proof {
            let s1 = self.branches@;
            assert(s1 == s0.remove(idx as int));
            s0.remove_ensures(idx as int);
            assert forall|a: int, b: int| 0 <= a < b < s1.len() implies s1[a].name@ != s1[b].name@
                by {
                let a0: int = if a < idx {
                    a
                } else {
                    a + 1
                };
                let b0: int = if b < idx {
                    b
                } else {
                    b + 1
                };
                assert(s1[a] == s0[a0]);
                assert(s1[b] == s0[b0]);
            }
            assert forall|n: Seq<char>| true implies self.has_branch(n) == (old(self).has_branch(n)
                && n != name@) by {
                if self.has_branch(n) {
                    let j = choose|j: int| 0 <= j < s1.len() && s1[j].name@ == n;
                    let j0: int = if j < idx {
                        j
                    } else {
                        j + 1
                    };
                    assert(s1[j] == s0[j0]);
                    assert(old(self).has_branch(n));
                    assert(j0 != idx);
                    assert(n != name@);
                }
                if old(self).has_branch(n) && n != name@ {
                    let j = old(self).branch_at(n);
                    assert(s0[j].name@ == n);
                    assert(j != idx);
                    if j < idx {
                        assert(s1[j].name@ == n);
                    } else {
                        assert(s1[j - 1].name@ == n);
                    }
                }
            }
            assert forall|n: Seq<char>| old(self).has_branch(n) && n != name@ implies
                self.history_of(n) == old(self).history_of(n) by {
                let j = old(self).branch_at(n);
                assert(s0[j].name@ == n);
                assert(j != idx);
                lemma_branch_lookup(*old(self), j);
                let j1: int = if j < idx {
                    j
                } else {
                    j - 1
                };
                assert(s1[j1] == s0[j]);
                lemma_branch_lookup(*self, j1);
            }
            assert(self.has_branch("main"@));
            assert(self.has_branch(self.head@));
            assert forall|a: int, k: int|
                0 <= a < s1.len() && 0 <= k < s1[a].commit_ids@.len() implies self.has_commit(
                s1[a].commit_ids@[k]@,
            ) by {
                let a0: int = if a < idx {
                    a
                } else {
                    a + 1
                };
                assert(s1[a] == s0[a0]);
                assert(old(self).has_commit(s0[a0].commit_ids@[k]@));
                lemma_has_commit_stable(*old(self), *self, s1[a].commit_ids@[k]@);
            }
            assert forall|a: int| 0 <= a < s1.len() implies distinct_ids(s1[a].commit_ids@) by {
                let a0: int = if a < idx {
                    a
                } else {
                    a + 1
                };
                assert(s1[a] == s0[a0]);
                assert(distinct_ids(s0[a0].commit_ids@));
            }
            assert(self.wf());
        }
        Ok(())
    }

    /// All registered branch names, alphabetically.
    #[verifier::rlimit(100)]
    pub fn list_branches(&self) -> (r: Vec<String>)
        requires
            self.wf(),
        ensures
            r@.len() == self.branches@.len(),
            forall|k: int| 0 <= k < r@.len() ==> self.has_branch(r@[k]@),
            forall|n: Seq<char>|
                self.has_branch(n) ==> exists|k: int| 0 <= k < r@.len() && r@[k]@ == n,
            forall|a: int, b: int| 0 <= a < b < r@.len() ==> chars_lt(r@[a]@, r@[b]@),
    {
        let mut out: Vec<String> = Vec::new();
        let mut i: usize = 0;
        while i < self.branches.len()
            invariant
                self.wf(),
                i <= self.branches@.len(),
                out@.len() == i,
                forall|k: int|
                    #![trigger out@[k]]
                    0 <= k < out@.len() ==> exists|j: int|
                        0 <= j < i && #[trigger] self.branches@[j].name@ == out@[k]@,
                forall|j: int|
                    #![trigger self.branches@[j]]
                    0 <= j < i ==> exists|k: int|
                        0 <= k < out@.len() && #[trigger] out@[k]@ == self.branches@[j].name@,
                forall|a: int, b: int| 0 <= a < b < out@.len() ==> chars_lt(out@[a]@, out@[b]@),
            decreases self.branches@.len() - i,
        {
            proof {
                assert forall|k: int| 0 <= k < out@.len() implies out@[k]@
                    != self.branches@[i as int].name@ by {
                    let j = choose|j: int| 0 <= j < i && self.branches@[j].name@ == out@[k]@;
                    assert(self.branches@[j].name@ != self.branches@[i as int].name@);
                }
            }
            let ghost out0 = out@;
            insert_name_sorted(&mut out, self.branches[i].name.clone());
            proof {
                assert forall|k: int| #![trigger out@[k]] 0 <= k < out@.len() implies exists|j: int|
                    0 <= j < i + 1 && #[trigger] self.branches@[j].name@ == out@[k]@ by {
                    if out@[k]@ == self.branches@[i as int].name@ {
                        assert(self.branches@[i as int].name@ == out@[k]@);
                    } else {
                        let j0 = choose|j0: int| 0 <= j0 < out0.len() && out0[j0]@ == out@[k]@;
                        let j = choose|j: int| 0 <= j < i && self.branches@[j].name@ == out0[j0]@;
                        assert(self.branches@[j].name@ == out@[k]@);
                    }
                }
                assert forall|j: int| #![trigger self.branches@[j]] 0 <= j < i + 1 implies exists|k: int|
                    0 <= k < out@.len() && #[trigger] out@[k]@ == self.branches@[j].name@ by {
                    if j < i {
                        let k0 = choose|k0: int|
                            0 <= k0 < out0.len() && out0[k0]@ == self.branches@[j].name@;
                        let k = choose|k: int| 0 <= k < out@.len() && out@[k]@ == out0[k0]@;
                        assert(out@[k]@ == self.branches@[j].name@);
                    }
                }
            }
            i = i + 1;
        }
        proof {
            assert forall|n: Seq<char>| self.has_branch(n) implies exists|k: int|
                0 <= k < out@.len() && out@[k]@ == n by {
                let j = self.branch_at(n);
                assert(self.branches@[j].name@ == n);
            }
        }
        out
    }

    /// Record `snap` as the baseline of branch `name`, replacing any
    /// earlier baseline of that branch and leaving every other baseline as
    /// it was.
    fn set_baseline_entry(&mut self, name: &str, snap: Snapshot)
        requires
            forall|a: int, b: int|
                0 <= a < b < old(self).baselines@.len() ==> old(self).baselines@[a].branch@ != old(
                    self,
                ).baselines@[b].branch@,
            forall|a: int| 0 <= a < old(self).baselines@.len() ==> old(self).baselines@[a].snapshot.wf(),
            snap.wf(),
        ensures
            forall|a: int, b: int|
                0 <= a < b < final(self).baselines@.len() ==> final(self).baselines@[a].branch@
                    != final(self).baselines@[b].branch@,
            forall|a: int| 0 <= a < final(self).baselines@.len() ==> final(self).baselines@[a].snapshot.wf(),
            final(self).baseline_of(name@) == snap@,
            forall|n: Seq<char>|
                n != name@ ==> final(self).baseline_of(n) == old(self).baseline_of(n),
            final(self).config == old(self).config,
            final(self).head == old(self).head,
            final(self).branches == old(self).branches,
            final(self).commits == old(self).commits,
            final(self).next_seq == old(self).next_seq,
    {
        let ghost s0 = self.baselines@;
        let entry = Baseline { branch: name.to_owned(), snapshot: snap };
        let ghost e = entry;
        match self.find_baseline_index(name) {
            Some(i) => {
                self.baselines.set(i, entry);
                proof {
                    let s1 = self.baselines@;
                    assert(s1 == s0.update(i as int, e));
                    assert forall|a: int, b: int| 0 <= a < b < s1.len() implies s1[a].branch@
                        != s1[b].branch@ by {
                        assert(s1[a].branch@ == s0[a].branch@);
                        assert(s1[b].branch@ == s0[b].branch@);
                    }
                    lemma_baseline_lookup(*self, i as int);
                    assert(self.baseline_of(name@) == snap@);
                    assert forall|n: Seq<char>| n != name@ implies self.baseline_of(n) == old(
                        self,
                    ).baseline_of(n) by {
                        if old(self).has_baseline(n) {
                            let j = old(self).baseline_at(n);
                            assert(s0[j].branch@ == n);
                            assert(j != i);
                            assert(s1[j] == s0[j]);
                            lemma_baseline_lookup(*old(self), j);
                            lemma_baseline_lookup(*self, j);
                        } else {
                            if self.has_baseline(n) {
                                let j = choose|j: int| 0 <= j < s1.len() && s1[j].branch@ == n;
                                assert(j != i);
                                assert(s0[j].branch@ == n);
                                assert(false);
                            }
                        }
                    }
                }
            },
            None => {
                self.baselines.push(entry);
                proof {
                    let s1 = self.baselines@;
                    assert(s1 == s0.push(e));
                    let last = s0.len() as int;
                    assert(s1[last].branch@ == name@);
                    assert forall|a: int, b: int| 0 <= a < b < s1.len() implies s1[a].branch@
                        != s1[b].branch@ by {
                        if b == last {
                            assert(s1[a] == s0[a]);
                            if s0[a].branch@ == name@ {
                                assert(old(self).has_baseline(name@));
                                assert(false);
                            }
                        } else {
                            assert(s1[a] == s0[a]);
                            assert(s1[b] == s0[b]);
                        }
                    }
                    lemma_baseline_lookup(*self, last);
                    assert(self.baseline_of(name@) == snap@);
                    assert forall|n: Seq<char>| n != name@ implies self.baseline_of(n) == old(
                        self,
                    ).baseline_of(n) by {
                        if old(self).has_baseline(n) {
                            let j = old(self).baseline_at(n);
                            assert(s0[j].branch@ == n);
                            assert(s1[j] == s0[j]);
                            lemma_baseline_lookup(*old(self), j);
                            lemma_baseline_lookup(*self, j);
                        } else {
                            if self.has_baseline(n) {
                                let j = choose|j: int| 0 <= j < s1.len() && s1[j].branch@ == n;
                                assert(j != last);
                                assert(s0[j].branch@ == n);
                                assert(false);
                            }
                        }
                    }
                }
            },
        }
    }

    /// Persist a new commit holding `snapshot`: store the record, refresh
    /// the active branch's baseline, and append the fresh id to the active
    /// branch's history. Returns the new id. One logical transaction over
    /// the in-memory state.
    #[verifier::rlimit(100)]
    pub fn save_commit(&mut self, message: &str, snapshot: Snapshot) -> (r: Result<
        String,
        ArkError,
    >)
        requires
            old(self).wf(),
            snapshot.wf(),
            old(self).next_seq < u64::MAX,
        ensures
            final(self).wf(),
            r is Ok,
            match r {
                Ok(id) => save_commit_post(*old(self), *final(self), id@, message@, snapshot@),
                Err(_) => false,
            },
    {
        let ghost r0 = *self;
        let id = self.generate_id();
        let ghost idv = id@;
        let ts = now_string();
        let head_name = self.head.clone();
        let commit = Commit {
            id: id.clone(),
            message: message.to_owned(),
            timestamp: ts,
            branch: self.head.clone(),
            files_snapshot: snapshot.duplicate(),
        };
        let ghost c = commit;
        let ghost cs0 = self.commits@;
        self.commits.push(commit);
        proof {
            assert(self.commits@ == cs0.push(c));
        }
        let ghost r1 = *self;
        self.set_baseline_entry(head_name.as_str(), snapshot);
        let ghost r2 = *self;
        let bi = match self.find_branch_index(head_name.as_str()) {
            Some(i) => i,
            None => {
                proof {
                    assert(r0.has_branch(r0.head@));
                    let w = r0.branch_at(r0.head@);
                    assert(self.branches@[w].name@ == head_name@);
                    assert(false);
                }
                0
            },
        };
        proof {
            lemma_branch_lookup(r0, bi as int);
        }
        let bname = self.branches[bi].name.clone();
        let mut ids = clone_ids(&self.branches[bi].commit_ids);
        let ghost old_ids = self.branches[bi as int].commit_ids@;
        ids.push(id.clone());
        let ghost bs0 = self.branches@;
        let new_branch = Branch { name: bname, commit_ids: ids };
        let ghost nb = new_branch;
        self.branches.set(bi, new_branch);
        self.next_seq = self.next_seq + 1;
        proof {
            let s1 = self.branches@;
            assert(s1 == bs0.update(bi as int, nb));
            assert(nb.name@ == r0.head@);
            assert(bs0 == r0.branches@);
            // branch names unchanged in view
            assert forall|a: int| 0 <= a < s1.len() implies s1[a].name@ == bs0[a].name@ by {}
            assert forall|a: int, b: int| 0 <= a < b < s1.len() implies s1[a].name@ != s1[b].name@
                by {
                assert(bs0[a].name@ != bs0[b].name@);
            }
            assert forall|n: Seq<char>| true implies self.has_branch(n) == r0.has_branch(n) by {
                if r0.has_branch(n) {
                    let j = r0.branch_at(n);
                    assert(s1[j].name@ == n);
                }
                if self.has_branch(n) {
                    let j = choose|j: int| 0 <= j < s1.len() && s1[j].name@ == n;
                    assert(bs0[j].name@ == n);
                    assert(r0.has_branch(n));
                }
            }
            assert(self.has_branch("main"@));
            assert(self.has_branch(self.head@));
            // commit ids distinct, counter bound
            let csn = self.commits@;
            assert(csn == cs0.push(c));
            assert(c.id@ == idv);
            assert(idv == decimal_of(r0.next_seq as nat));
            assert forall|a: int, b: int| 0 <= a < b < csn.len() implies csn[a].id@ != csn[b].id@
                by {
                if b == cs0.len() {
                    assert(csn[a] == cs0[a]);
                    assert(r0.has_commit(cs0[a].id@)) by {
                        assert(cs0[a].id@ == r0.commits@[a].id@);
                    }
                    assert(!r0.has_commit(idv));
                } else {
                    assert(csn[a] == cs0[a]);
                    assert(csn[b] == cs0[b]);
                }
            }
            assert(self.next_seq == r0.next_seq + 1);
            assert forall|a: int| 0 <= a < csn.len() implies id_from_counter(
                #[trigger] csn[a].id@,
                self.next_seq,
            ) by {
                if a < cs0.len() {
                    assert(csn[a] == cs0[a]);
                    assert(id_from_counter(cs0[a].id@, r0.next_seq));
                    let k = choose|k: nat| k < r0.next_seq && cs0[a].id@ == decimal_of(k);
                    assert(k < self.next_seq);
                } else {
                    assert(csn[a].id@ == decimal_of(r0.next_seq as nat));
                    assert((r0.next_seq as nat) < self.next_seq);
                }
            }
            // every listed id has a commit
            assert forall|a: int, k: int|
                0 <= a < s1.len() && 0 <= k < s1[a].commit_ids@.len() implies self.has_commit(
                s1[a].commit_ids@[k]@,
            ) by {
                if a == bi {
                    if k < old_ids.len() {
                        assert(s1[a].commit_ids@[k]@ == old_ids[k]@);
                        assert(r0.has_commit(old_ids[k]@));
                        let w = choose|w: int|
                            0 <= w < r0.commits@.len() && r0.commits@[w].id@ == old_ids[k]@;
                        assert(csn[w].id@ == old_ids[k]@);
                    } else {
                        assert(s1[a].commit_ids@[k]@ == idv);
                        assert(csn[cs0.len() as int].id@ == idv);
                    }
                } else {
                    assert(s1[a] == bs0[a]);
                    assert(r0.has_commit(bs0[a].commit_ids@[k]@));
                    let w = choose|w: int|
                        0 <= w < r0.commits@.len() && r0.commits@[w].id@ == bs0[
                            a
                        ].commit_ids@[k]@;
                    assert(csn[w].id@ == bs0[a].commit_ids@[k]@);
                }
            }
            // per-branch ids distinct
            assert forall|a: int| 0 <= a < s1.len() implies distinct_ids(s1[a].commit_ids@) by {
                if a == bi {
                    assert forall|x: int, y: int|
                        0 <= x < y < s1[a].commit_ids@.len() implies s1[a].commit_ids@[x]@ != s1[
                            a
                        ].commit_ids@[y]@ by {
                        if y < old_ids.len() {
                            assert(s1[a].commit_ids@[x]@ == old_ids[x]@);
                            assert(s1[a].commit_ids@[y]@ == old_ids[y]@);
                            assert(distinct_ids(old_ids));
                        } else {
                            assert(s1[a].commit_ids@[x]@ == old_ids[x]@);
                            assert(s1[a].commit_ids@[y]@ == idv);
                            assert(r0.has_commit(old_ids[x]@));
                            assert(!r0.has_commit(idv));
                        }
                    }
                } else {
                    assert(s1[a] == bs0[a]);
                    assert(distinct_ids(bs0[a].commit_ids@));
                }
            }
            // histories
            lemma_branch_lookup(*self, bi as int);
            assert(ids_view(s1[bi as int].commit_ids@) =~= ids_view(old_ids).push(idv));
            assert(r0.history_of(r0.head@) == ids_view(old_ids));
            assert(self.history_of(r0.head@) == r0.history_of(r0.head@).push(idv));
            assert forall|n: Seq<char>| r0.has_branch(n) && n != r0.head@ implies self.history_of(
                n,
            ) == r0.history_of(n) by {
                let j = r0.branch_at(n);
                assert(bs0[j].name@ == n);
                assert(j != bi);
                assert(s1[j] == bs0[j]);
                lemma_branch_lookup(r0, j);
                lemma_branch_lookup(*self, j);
            }
            // baselines: set_baseline_entry ensures on r1 -> r2; branches update left them alone
            assert(self.baselines@ == r2.baselines@);
            assert(self.baseline_of(r0.head@) == snapshot@);
            assert forall|n: Seq<char>| n != r0.head@ implies self.baseline_of(n)
                == r0.baseline_of(n) by {
                assert(r2.baseline_of(n) == r1.baseline_of(n));
                assert(r1.baselines@ == r0.baselines@);
            }
            // commit store facts
            lemma_commit_lookup(*self, cs0.len() as int);
            assert(self.has_commit(idv));
            assert(self.commit_of(idv) == c);
            assert forall|cc: Seq<char>| true implies self.has_commit(cc) == (r0.has_commit(cc)
                || cc == idv) by {
                if r0.has_commit(cc) {
                    let w = choose|w: int|
                        0 <= w < r0.commits@.len() && r0.commits@[w].id@ == cc;
                    assert(csn[w].id@ == cc);
                }
                if self.has_commit(cc) && cc != idv {
                    let w = choose|w: int| 0 <= w < csn.len() && csn[w].id@ == cc;
                    assert(w != cs0.len());
                    assert(cs0[w].id@ == cc);
                    assert(r0.has_commit(cc));
                }
            }
            assert forall|cc: Seq<char>| r0.has_commit(cc) implies self.commit_of(cc)
                == r0.commit_of(cc) by {
                let w = r0.commit_at(cc);
                assert(r0.commits@[w].id@ == cc);
                assert(csn[w] == cs0[w]);
                lemma_commit_lookup(r0, w);
                lemma_commit_lookup(*self, w);
            }
            // remaining wf parts
            assert forall|a: int| 0 <= a < csn.len() implies csn[a].files_snapshot.wf() by {
                if a < cs0.len() {
                    assert(csn[a] == cs0[a]);
                }
            }
            assert(self.wf());
            assert(save_commit_post(r0, *self, idv, message@, snapshot@));
        }
        Ok(id)
    }

    /// Whether a branch other than `except` lists commit id `id`.
    fn id_listed_elsewhere_exec(&self, id: &str, except: &str) -> (r: bool)
        ensures
            r == self.id_listed_elsewhere(id@, except@),
    {
        let mut i: usize = 0;
        while i < self.branches.len()
            invariant
                i <= self.branches@.len(),
                forall|a: int, k: int|
                    0 <= a < i && self.branches@[a].name@ != except@ && 0 <= k
                        < self.branches@[a].commit_ids@.len() ==> self.branches@[a].commit_ids@[k]@
                        != id@,
            decreases self.branches@.len() - i,
        {
            if !str_eq(self.branches[i].name.as_str(), except) {
                let ids = &self.branches[i].commit_ids;
                let mut k: usize = 0;
                while k < ids.len()
                    invariant
                        k <= ids@.len(),
                        i < self.branches@.len(),
                        self.branches@[i as int].name@ != except@,
                        ids@ == self.branches@[i as int].commit_ids@,
                        forall|t: int| 0 <= t < k ==> ids@[t]@ != id@,
                    decreases ids@.len() - k,
                {
                    if str_eq(ids[k].as_str(), id) {
                        proof {
                            assert(self.branches@[i as int].name@ != except@);
                            assert(self.branches@[i as int].commit_ids@[k as int]@ == id@);
                            assert(self.id_listed_elsewhere(id@, except@));
                        }
                        return true;
                    }
                    k = k + 1;
                }
            }
            i = i + 1;
        }
        false
    }

    /// Roll back the latest save on the active branch: pop the last id,
    /// restore the baseline to the now-last commit's snapshot, delete the
    /// popped record (unless another branch still lists it), and persist
    /// the shortened history. Irreversible.
    #[verifier::rlimit(100)]
    pub fn undo(&mut self) -> (r: Result<UndoOutcome, ArkError>)
        requires
            old(self).wf(),
        ensures
            final(self).wf(),
            match r {
                Ok(out) => undo_error(*old(self)) is None && undo_post(
                    *old(self),
                    *final(self),
                    out.removed_id@,
                    out.restored_id@,
                ) && out.message@ == old(self).commit_of(out.restored_id@).message@
                    && out.timestamp@ == old(self).commit_of(out.restored_id@).timestamp@,
                Err(e) => Some(e) == undo_error(*old(self)) && *final(self) == *old(self),
            },
    {
        let ghost r0 = *self;
        let head_name = self.head.clone();
        let bi = match self.find_branch_index(head_name.as_str()) {
            Some(i) => i,
            None => {
                proof {
                    assert(r0.has_branch(r0.head@));
                    let w = r0.branch_at(r0.head@);
                    assert(self.branches@[w].name@ == head_name@);
                    assert(false);
                }
                return Err(ArkError::IoError);
            },
        };
        proof {
            lemma_branch_lookup(r0, bi as int);
        }
        let n = self.branches[bi].commit_ids.len();
        if n == 0 {
            return Err(ArkError::NothingToUndo);
        }
        if n == 1 {
            return Err(ArkError::FirstSave);
        }
        let ghost hist = r0.history_of(r0.head@);
        let removed = self.branches[bi].commit_ids[n - 1].clone();
        let restored = self.branches[bi].commit_ids[n - 2].clone();
        proof {
            assert(hist.len() == n);
            assert(removed@ == hist.last());
            assert(restored@ == hist[hist.len() - 2]);
            assert(r0.has_commit(restored@));
            assert(r0.has_commit(removed@));
            assert(removed@ != restored@) by {
                assert(distinct_ids(r0.branches@[bi as int].commit_ids@));
            }
        }
        // load the previous commit's snapshot and details
        let ci = match self.find_commit_index(restored.as_str()) {
            Some(i) => i,
            None => {
                proof {
                    assert(false);
                }
                return Err(ArkError::IoError);
            },
        };
        proof {
            lemma_commit_lookup(r0, ci as int);
        }
        let prev_message = self.commits[ci].message.clone();
        let prev_timestamp = self.commits[ci].timestamp.clone();
        let prev_snapshot = self.commits[ci].files_snapshot.duplicate();
        // restore the branch baseline
        self.set_baseline_entry(head_name.as_str(), prev_snapshot);
        let ghost r2 = *self;
        // delete the popped record, unless another branch still lists it
        let shared = self.id_listed_elsewhere_exec(removed.as_str(), head_name.as_str());
        let ghost cs0 = self.commits@;
        if !shared {
            let ri = match self.find_commit_index(removed.as_str()) {
                Some(i) => i,
                None => {
                    proof {
                        let w = choose|w: int|
                            0 <= w < r0.commits@.len() && r0.commits@[w].id@ == removed@;
                        assert(self.commits@[w].id@ == removed@);
                        assert(false);
                    }
                    return Err(ArkError::IoError);
                },
            };
            self.commits.remove(ri);
            proof {
                assert(self.commits@ == cs0.remove(ri as int));
                cs0.remove_ensures(ri as int);
            }
        }
        let ghost csn = self.commits@;
        // persist the shortened history
        let bname = self.branches[bi].name.clone();
        let mut ids = clone_ids(&self.branches[bi].commit_ids);
        let ghost old_ids = self.branches[bi as int].commit_ids@;
        ids.pop();
        let ghost bs0 = self.branches@;
        let new_branch = Branch { name: bname, commit_ids: ids };
        let ghost nb = new_branch;
        self.branches.set(bi, new_branch);
        proof {
            let s1 = self.branches@;
            assert(s1 == bs0.update(bi as int, nb));
            assert(bs0 == r0.branches@);
            assert(nb.name@ == r0.head@);
            assert(nb.commit_ids@.len() == old_ids.len() - 1);
            assert forall|t: int| 0 <= t < nb.commit_ids@.len() implies nb.commit_ids@[t]@
                == old_ids[t]@ by {}
            // names and branch membership unchanged
            assert forall|a: int, b: int| 0 <= a < b < s1.len() implies s1[a].name@ != s1[b].name@
                by {
                assert(bs0[a].name@ != bs0[b].name@);
                assert(s1[a].name@ == bs0[a].name@);
                assert(s1[b].name@ == bs0[b].name@);
            }
            assert forall|nn: Seq<char>| true implies self.has_branch(nn) == r0.has_branch(nn) by {
                if r0.has_branch(nn) {
                    let j = r0.branch_at(nn);
                    assert(s1[j].name@ == nn);
                }
                if self.has_branch(nn) {
                    let j = choose|j: int| 0 <= j < s1.len() && s1[j].name@ == nn;
                    assert(bs0[j].name@ == nn);
                }
            }
            assert(self.has_branch("main"@));
            assert(self.has_branch(self.head@));
            // commit-store facts
            assert forall|cc: Seq<char>| cc != removed@ implies self.has_commit(cc)
                == r0.has_commit(cc) by {
                if shared {
                    assert(csn == r0.commits@);
                    if r0.has_commit(cc) {
                        let w = choose|w: int|
                            0 <= w < r0.commits@.len() && r0.commits@[w].id@ == cc;
                        assert(self.commits@[w].id@ == cc);
                        assert(self.has_commit(cc));
                    }
                    if self.has_commit(cc) {
                        let w = choose|w: int|
                            0 <= w < self.commits@.len() && self.commits@[w].id@ == cc;
                        assert(r0.commits@[w].id@ == cc);
                        assert(r0.has_commit(cc));
                    }
                    assert(self.has_commit(cc) == r0.has_commit(cc));
                } else {
                    assert(exists|x: int|
                        0 <= x < cs0.len() && cs0[x].id@ == removed@ && csn == cs0.remove(x));
                    let ri0 = choose|ri0: int| 0 <= ri0 < cs0.len() && cs0[ri0].id@ == removed@
                        && csn == cs0.remove(ri0);
                    cs0.remove_ensures(ri0);
                    assert(self.commits@ == csn);
                    if r0.has_commit(cc) {
                        let w = choose|w: int|
                            0 <= w < cs0.len() && cs0[w].id@ == cc;
                        if w < ri0 {
                            assert(csn[w].id@ == cc);
                            assert(self.commits@[w].id@ == cc);
                        } else {
                            assert(w != ri0);
                            assert(csn[w - 1].id@ == cc);
                            assert(self.commits@[w - 1].id@ == cc);
                        }
                        assert(self.has_commit(cc));
                    }
                    if self.has_commit(cc) {
                        let w = choose|w: int| 0 <= w < csn.len() && csn[w].id@ == cc;
                        if w < ri0 {
                            assert(csn[w] == cs0[w]);
                            assert(cs0[w].id@ == cc);
                        } else {
                            assert(csn[w] == cs0[w + 1]);
                            assert(cs0[w + 1].id@ == cc);
                        }
                        assert(r0.has_commit(cc));
                    }
                    assert(self.has_commit(cc) == r0.has_commit(cc));
                }
            }
            assert forall|cc: Seq<char>| cc != removed@ && r0.has_commit(cc) implies
                self.commit_of(cc) == r0.commit_of(cc) by {
                let w = r0.commit_at(cc);
                lemma_commit_lookup(r0, w);
                if shared {
                    assert(csn == r0.commits@);
                    lemma_commit_lookup(*self, w);
                } else {
                    let ri0 = choose|ri0: int| 0 <= ri0 < cs0.len() && cs0[ri0].id@ == removed@
                        && csn == cs0.remove(ri0);
                    if w < ri0 {
                        assert(csn[w] == cs0[w]);
                        lemma_commit_lookup(*self, w);
                    } else {
                        assert(w != ri0);
                        assert(csn[w - 1] == cs0[w]);
                        lemma_commit_lookup(*self, w - 1);
                    }
                }
            }
            if !shared {
                assert(!r0.id_listed_elsewhere(removed@, r0.head@));
                assert forall|w: int| 0 <= w < csn.len() implies csn[w].id@ != removed@ by {
                    let ri0 = choose|ri0: int| 0 <= ri0 < cs0.len() && cs0[ri0].id@ == removed@
                        && csn == cs0.remove(ri0);
                    if w < ri0 {
                        assert(csn[w] == cs0[w]);
                    } else {
                        assert(csn[w] == cs0[w + 1]);
                    }
                }
                assert(!self.has_commit(removed@));
            } else {
                assert(csn == r0.commits@);
                let w = choose|w: int| 0 <= w < r0.commits@.len() && r0.commits@[w].id@ == removed@;
                assert(csn[w].id@ == removed@);
                assert(self.has_commit(removed@));
                lemma_commit_lookup(r0, w);
                lemma_commit_lookup(*self, w);
            }
            // wf: distinct commit ids and counter bound
            assert forall|a: int, b: int| 0 <= a < b < csn.len() implies csn[a].id@ != csn[b].id@
                by {
                if shared {
                    assert(csn == r0.commits@);
                } else {
                    let ri0 = choose|ri0: int| 0 <= ri0 < cs0.len() && cs0[ri0].id@ == removed@
                        && csn == cs0.remove(ri0);
                    let a0: int = if a < ri0 { a } else { a + 1 };
                    let b0: int = if b < ri0 { b } else { b + 1 };
                    assert(csn[a] == cs0[a0]);
                    assert(csn[b] == cs0[b0]);
                }
            }
            assert forall|a: int| 0 <= a < csn.len() implies id_from_counter(
                #[trigger] csn[a].id@,
                self.next_seq,
            ) by {
                if shared {
                    assert(csn == r0.commits@);
                } else {
                    let ri0 = choose|ri0: int| 0 <= ri0 < cs0.len() && cs0[ri0].id@ == removed@
                        && csn == cs0.remove(ri0);
                    let a0: int = if a < ri0 { a } else { a + 1 };
                    assert(csn[a] == cs0[a0]);
                }
            }
            assert forall|a: int| 0 <= a < csn.len() implies csn[a].files_snapshot.wf() by {
                if shared {
                    assert(csn == r0.commits@);
                } else {
                    let ri0 = choose|ri0: int| 0 <= ri0 < cs0.len() && cs0[ri0].id@ == removed@
                        && csn == cs0.remove(ri0);
                    let a0: int = if a < ri0 { a } else { a + 1 };
                    assert(csn[a] == cs0[a0]);
                }
            }
            // every listed id still has a commit; per-branch distinctness
            assert(cs0 == r0.commits@);
            assert forall|a: int, k: int|
                0 <= a < s1.len() && 0 <= k < s1[a].commit_ids@.len() implies self.has_commit(
                s1[a].commit_ids@[k]@,
            ) by {
                let cid = s1[a].commit_ids@[k]@;
                if a == bi {
                    assert(cid == old_ids[k]@);
                    assert(r0.has_commit(cid));
                    assert(cid != removed@) by {
                        assert(distinct_ids(old_ids));
                        assert(removed@ == old_ids[old_ids.len() - 1]@);
                    }
                } else {
                    assert(s1[a] == bs0[a]);
                    assert(r0.has_commit(cid));
                    if !shared {
                        assert(cid != removed@) by {
                            if cid == removed@ {
                                assert(bs0[a].name@ != r0.head@) by {
                                    if bs0[a].name@ == r0.head@ {
                                        lemma_branch_lookup(r0, a);
                                        lemma_branch_lookup(r0, bi as int);
                                    }
                                }
                                assert(r0.id_listed_elsewhere(removed@, r0.head@));
                                assert(false);
                            }
                        }
                    }
                }
                if shared {
                    assert(csn == r0.commits@);
                    let w = choose|w: int|
                        0 <= w < r0.commits@.len() && r0.commits@[w].id@ == cid;
                    assert(csn[w].id@ == cid);
                } else {
                    assert(cid != removed@);
                    let w = choose|w: int| 0 <= w < cs0.len() && cs0[w].id@ == cid;
                    let ri0 = choose|ri0: int| 0 <= ri0 < cs0.len() && cs0[ri0].id@ == removed@
                        && csn == cs0.remove(ri0);
                    if w < ri0 {
                        assert(csn[w].id@ == cid);
                    } else {
                        assert(w != ri0);
                        assert(csn[w - 1].id@ == cid);
                    }
                }
            }
            assert forall|a: int| 0 <= a < s1.len() implies distinct_ids(s1[a].commit_ids@) by {
                if a == bi {
                    assert forall|x: int, y: int|
                        0 <= x < y < nb.commit_ids@.len() implies nb.commit_ids@[x]@
                        != nb.commit_ids@[y]@ by {
                        assert(nb.commit_ids@[x]@ == old_ids[x]@);
                        assert(nb.commit_ids@[y]@ == old_ids[y]@);
                        assert(distinct_ids(old_ids));
                    }
                } else {
                    assert(s1[a] == bs0[a]);
                    assert(distinct_ids(bs0[a].commit_ids@));
                }
            }
            // histories
            lemma_branch_lookup(*self, bi as int);
            assert(ids_view(nb.commit_ids@) =~= hist.drop_last());
            assert(self.history_of(r0.head@) == hist.drop_last());
            assert forall|nn: Seq<char>| r0.has_branch(nn) && nn != r0.head@ implies
                self.history_of(nn) == r0.history_of(nn) by {
                let j = r0.branch_at(nn);
                assert(bs0[j].name@ == nn);
                assert(j != bi);
                assert(s1[j] == bs0[j]);
                lemma_branch_lookup(r0, j);
                lemma_branch_lookup(*self, j);
            }
            // baselines
            assert(self.baselines@ == r2.baselines@);
            assert(self.baseline_of(r0.head@) == r0.commit_of(restored@).files_snapshot@);
            assert forall|nn: Seq<char>| nn != r0.head@ implies self.baseline_of(nn)
                == r0.baseline_of(nn) by {}
            assert(self.wf());
            assert(undo_post(r0, *self, removed@, restored@));
        }
        Ok(
            UndoOutcome {
                removed_id: removed,
                restored_id: restored,
                message: prev_message,
                timestamp: prev_timestamp,
            },
        )
    }

    /// Summarize a change list as a message: "Auto: " followed by the
    /// non-zero counts of new, modified and deleted paths.
    pub fn generate_message(changes: &Vec<FileStatus>) -> (r: String)
        ensures
            r@ == spec_auto_message(
                count_status(changes@, Status::New),
                count_status(changes@, Status::Modified),
                count_status(changes@, Status::Deleted),
            ),
    {
        let mut n: usize = 0;
        let mut m: usize = 0;
        let mut d: usize = 0;
        let mut i: usize = 0;
        proof {
            assert(changes@.take(0) =~= Seq::<FileStatus>::empty());
        }
        while i < changes.len()
            invariant
                i <= changes@.len(),
                n == count_status(changes@.take(i as int), Status::New),
                m == count_status(changes@.take(i as int), Status::Modified),
                d == count_status(changes@.take(i as int), Status::Deleted),
                n <= i && m <= i && d <= i,
            decreases changes@.len() - i,
        {
            proof {
                assert(changes@.take(i + 1).drop_last() =~= changes@.take(i as int));
                assert(changes@.take(i + 1).last() == changes@[i as int]);
            }
            match changes[i].status {
                Status::New => {
                    n = n + 1;
                },
                Status::Modified => {
                    m = m + 1;
                },
                Status::Deleted => {
                    d = d + 1;
                },
                Status::Unchanged => {},
            }
            i = i + 1;
        }
        proof {
            assert(changes@.take(changes@.len() as int) =~= changes@);
        }
        let ghost nn = n as nat;
        let ghost mm = m as nat;
        let ghost dd = d as nat;
        let mut parts: Vec<String> = Vec::new();
        if n > 0 {
            let mut p = u64_to_string(n as u64);
            p.append(" new");
            parts.push(p);
        }
        if m > 0 {
            let mut p = u64_to_string(m as u64);
            p.append(" modified");
            parts.push(p);
        }
        if d > 0 {
            let mut p = u64_to_string(d as u64);
            p.append(" deleted");
            parts.push(p);
        }
        let ghost pv = auto_message_parts(nn, mm, dd);
        proof {
            assert(parts@.map_values(|s: String| s@) =~= pv);
        }
        let mut r = String::from_str("Auto: ");
        let mut k: usize = 0;
        proof {
            assert(pv.take(0) =~= Seq::<Seq<char>>::empty());
            assert(r@ == "Auto: "@ + join_comma(pv.take(0)));
        }
        while k < parts.len()
            invariant
                k <= parts@.len(),
                parts@.map_values(|s: String| s@) == pv,
                pv.len() == parts@.len(),
                r@ == "Auto: "@ + join_comma(pv.take(k as int)),
            decreases parts@.len() - k,
        {
            if k > 0 {
                r.append(", ");
            }
            r.append(parts[k].as_str());
            proof {
                assert(parts@[k as int]@ == pv[k as int]);
                assert(pv.take(k + 1).drop_last() =~= pv.take(k as int));
                assert(pv.take(k + 1).last() == pv[k as int]);
                if k == 0 {
                    assert(join_comma(pv.take(1)) == pv[0]);
                    assert(r@ == "Auto: "@ + pv[0]);
                } else {
                    assert(join_comma(pv.take(k + 1)) == join_comma(pv.take(k as int)) + ", "@
                        + pv[k as int]);
                }
            }
            k = k + 1;
        }
        proof {
            assert(pv.take(pv.len() as int) =~= pv);
        }
        r
    }

    /// One save request, start to finish: detect changes against the
    /// active branch's baseline; when there are none, do nothing; else
    /// commit `current` under the caller's message, or under an automatic
    /// summary when the caller gives none (or only blanks).
    #[verifier::rlimit(100)]
    pub fn save(&mut self, current: &Snapshot, message: Option<&str>) -> (r: SaveOutcome)
        requires
            old(self).wf(),
            current.wf(),
            old(self).next_seq < u64::MAX,
        ensures
            final(self).wf(),
            r is NothingToSave ==> *final(self) == *old(self) && (forall|p: Seq<char>|
                change_status(old(self).baseline_of(old(self).head@), current@, p) is None),
            r matches SaveOutcome::Saved(id) ==> (exists|p: Seq<char>|
                change_status(old(self).baseline_of(old(self).head@), current@, p) is Some)
                && save_commit_post(
                *old(self),
                *final(self),
                id@,
                final(self).commit_of(id@).message@,
                current@,
            ) && message_used(
                message,
                old(self).baseline_of(old(self).head@),
                current@,
                final(self).commit_of(id@).message@,
            ),
    {
        let ghost r0 = *self;
        let ghost base = old(self).baseline_of(old(self).head@);
        let baseline = self.load_snapshot();
        let changes = scan_changes(&baseline, current);
        if changes.len() == 0 {
            proof {
                assert forall|p: Seq<char>| true implies change_status(base, current@, p) is None
                    by {
                    if change_status(base, current@, p) is Some {
                        let k = choose|k: int| 0 <= k < changes@.len() && changes@[k].path@ == p;
                        assert(false);
                    }
                }
            }
            return SaveOutcome::NothingToSave;
        }
        proof {
            assert(change_status(base, current@, changes@[0].path@) is Some);
        }
        let msg: String = match message {
            Some(given) => {
                if !is_blank(given) {
                    given.to_owned()
                } else {
                    Self::generate_message(&changes)
                }
            },
            None => Self::generate_message(&changes),
        };
        proof {
            if message is Some && !spec_is_blank(message.unwrap()@) {
                assert(msg@ == message.unwrap()@);
            }
            if message is None || spec_is_blank(message.unwrap()@) {
                assert forall|cl: Seq<FileStatus>| is_change_list(base, current@, cl) implies
                    msg@ == spec_auto_message(
                    count_status(cl, Status::New),
                    count_status(cl, Status::Modified),
                    count_status(cl, Status::Deleted),
                ) by {
                    lemma_change_list_unique(base, current@, cl, changes@);
                    lemma_equivalent_counts(cl, changes@, Status::New);
                    lemma_equivalent_counts(cl, changes@, Status::Modified);
                    lemma_equivalent_counts(cl, changes@, Status::Deleted);
                }
                assert(auto_msg_for(base, current@, msg@));
            }
        }
        let id = match self.save_commit(msg.as_str(), current.duplicate()) {
            Ok(id) => id,
            Err(_) => {
                proof {
                    assert(false);
                }
                return SaveOutcome::NothingToSave;
            },
        };
        proof {
            assert(save_commit_post(r0, *self, id@, msg@, current@));
            assert(message_used(message, base, current@, msg@));
            assert(save_commit_post(*old(self), *self, id@, msg@, current@));
            assert(self.commit_of(id@).message@ == msg@);
            assert(message_used(message, old(self).baseline_of(old(self).head@), current@, msg@));
            assert(exists|p: Seq<char>|
                change_status(old(self).baseline_of(old(self).head@), current@, p) is Some);
        }
        SaveOutcome::Saved(id)
    }

    pub fn load_snapshot(&self) -> (r: Snapshot)
        requires
            self.wf(),
        ensures
            r.wf(),
            r@ == self.baseline_of(self.head@),
    {
        match self.find_baseline_index(self.head.as_str()) {
            Some(i) => {
                proof {
                    lemma_baseline_lookup(*self, i as int);
                }
                self.baselines[i].snapshot.duplicate()
            },
            None => Snapshot::new(),
        }
    }
}

} // verus!
