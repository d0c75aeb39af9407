use vstd::prelude::*;

use crate::errors::ArkError;
use crate::repo::{save_commit_post, undo_error, undo_post, Repo};
use crate::text::{decimal_of, lemma_decimal_of_injective};
use crate::tracker::{change_status, is_change_list, FileStatus};

verus! {

/// Change detection is idempotent: with no mutation between two runs the
/// current snapshot equals the baseline, and any correct report over a
/// snapshot and itself is empty — so both runs report nothing.
pub proof fn lemma_change_detection_idempotent(
    m: Map<Seq<char>, u64>,
    out1: Seq<FileStatus>,
    out2: Seq<FileStatus>,
)
    requires
        is_change_list(m, m, out1),
        is_change_list(m, m, out2),
    ensures
        out1.len() == 0,
        out2.len() == 0,
{
    if out1.len() > 0 {
        assert(change_status(m, m, out1[0].path@) == Some(out1[0].status));
        assert(false);
    }
    if out2.len() > 0 {
        assert(change_status(m, m, out2[0].path@) == Some(out2[0].status));
        assert(false);
    }
}

/// Undo inverts the latest save: after two saves on a fresh branch, undo
/// removes the second commit, restores the first save's snapshot as the
/// comparison baseline, shortens the history to length one — and a
/// further undo is refused as an attempt to undo the genesis commit.
pub proof fn lemma_undo_inverse(
    r0: Repo,
    r1: Repo,
    r2: Repo,
    r3: Repo,
    id1: Seq<char>,
    id2: Seq<char>,
    m1: Seq<char>,
    m2: Seq<char>,
    s1: Map<Seq<char>, u64>,
    s2: Map<Seq<char>, u64>,
    removed: Seq<char>,
    restored: Seq<char>,
)
    requires
        r0.wf(),
        r0.history_of(r0.head@).len() == 0,
        save_commit_post(r0, r1, id1, m1, s1),
        save_commit_post(r1, r2, id2, m2, s2),
        undo_post(r2, r3, removed, restored),
    ensures
        removed == id2,
        restored == id1,
        r3.baseline_of(r3.head@) == s1,
        r3.history_of(r3.head@).len() == 1,
        undo_error(r3) == Some(ArkError::FirstSave),
{
    let a = r0.head@;
    assert(r1.head@ == a);
    assert(r2.head@ == a);
    assert(r3.head@ == a);
    let h0 = r0.history_of(a);
    let h1 = r1.history_of(a);
    let h2 = r2.history_of(a);
    assert(h1 == h0.push(id1));
    assert(h2 == h1.push(id2));
    assert(h2.len() == 2);
    assert(h2.last() == id2);
    assert(h2[0] == h1[0]);
    assert(h1[0] == id1);
    assert(removed == id2);
    assert(restored == h2[h2.len() - 2]);
    assert(restored == id1);
    assert(id1 != id2) by {
        assert(id1 == decimal_of(r0.next_seq as nat));
        assert(id2 == decimal_of(r1.next_seq as nat));
        assert(r1.next_seq == r0.next_seq + 1);
        lemma_decimal_of_injective(r0.next_seq as nat, r1.next_seq as nat);
    }
    assert(r2.commit_of(id1) == r1.commit_of(id1)) by {
        assert(r1.has_commit(id1));
    }
    assert(r1.commit_of(id1).files_snapshot@ == s1);
    assert(r3.baseline_of(a) == r2.commit_of(restored).files_snapshot@);
    assert(r3.baseline_of(r3.head@) == s1);
    assert(r3.history_of(a) == h2.drop_last());
    assert(r3.history_of(r3.head@).len() == 1);
    assert(undo_error(r3) == Some(ArkError::FirstSave));
}

/// Branch isolation: create branch `b` from the active branch `a`, switch
/// to `b`, then save. Only `b`'s history grows; `a`'s history and
/// baseline are exactly as they were. The requires restate what the
/// create, switch and save operations each guarantee.
pub proof fn lemma_branch_isolation(
    r0: Repo,
    r1: Repo,
    r2: Repo,
    r3: Repo,
    b: Seq<char>,
    id: Seq<char>,
    m: Seq<char>,
    s: Map<Seq<char>, u64>,
)
    requires
        r0.wf(),
        // creating b copied the active branch's history and touched nothing else
        !r0.has_branch(b),
        forall|n: Seq<char>| r1.has_branch(n) == (r0.has_branch(n) || n == b),
        r1.history_of(b) == r0.history_of(r0.head@),
        forall|n: Seq<char>| r0.has_branch(n) ==> r1.history_of(n) == r0.history_of(n),
        r1.head == r0.head,
        r1.baselines == r0.baselines,
        // switching moved HEAD only
        r2.head@ == b,
        r2.branches == r1.branches,
        r2.baselines == r1.baselines,
        // saving on b
        save_commit_post(r2, r3, id, m, s),
    ensures
        r3.history_of(b) == r0.history_of(r0.head@).push(id),
        r0.head@ != b ==> r3.history_of(r0.head@) == r0.history_of(r0.head@),
        r0.head@ != b ==> r3.baseline_of(r0.head@) == r0.baseline_of(r0.head@),
{
    let a = r0.head@;
    assert(r2.history_of(b) == r1.history_of(b));
    assert(r3.history_of(b) == r2.history_of(b).push(id));
    if a != b {
        assert(r1.has_branch(a)) by {
            assert(r0.has_branch(a));
        }
        assert(r2.has_branch(a) == r1.has_branch(a));
        assert(r2.history_of(a) == r1.history_of(a));
        assert(r3.history_of(a) == r2.history_of(a));
        assert(r3.history_of(a) == r0.history_of(a));
        assert(r2.baseline_of(a) == r1.baseline_of(a));
        assert(r1.baseline_of(a) == r0.baseline_of(a));
        assert(r3.baseline_of(a) == r2.baseline_of(a));
    }
}

} // verus!
