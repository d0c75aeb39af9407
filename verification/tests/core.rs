use ark::errors::ArkError;
use ark::repo::{init, SaveOutcome};
use ark::snapshot::Snapshot;
use ark::tracker::{build_snapshot, scan_changes, Status};

fn files(entries: &[(&str, &[u8])]) -> Vec<(String, Vec<u8>)> {
    entries.iter().map(|(p, c)| (p.to_string(), c.to_vec())).collect()
}

fn snap(entries: &[(&str, &[u8])]) -> Snapshot {
    build_snapshot(&files(entries))
}

#[test]
fn test_double_start_gives_error() {
    let r = init("proj", true);
    assert!(matches!(r, Err(ArkError::AlreadyInitialized)));
}

#[test]
fn test_init_creates_main() {
    let repo = init("proj", false).unwrap();
    assert_eq!(repo.get_current_branch(), "main");
    assert!(repo.branch_exists("main"));
    assert!(repo.load_history().is_empty());
    assert_eq!(repo.config.version, "0.1.0");
    assert_eq!(repo.config.project_name, "proj");
}

#[test]
fn test_check_empty_directory_reports_nothing() {
    let repo = init("proj", false).unwrap();
    let current = snap(&[]);
    let changes = scan_changes(&repo.load_snapshot(), &current);
    assert!(changes.is_empty());
}

#[test]
fn test_save_and_history() {
    let mut repo = init("proj", false).unwrap();
    let current = snap(&[("test.txt", b"hello ark")]);
    let changes = scan_changes(&repo.load_snapshot(), &current);
    assert_eq!(changes.len(), 1);
    assert_eq!(changes[0].path, "test.txt");
    assert_eq!(changes[0].status, Status::New);
    let outcome = repo.save(&current, Some("test commit"));
    let id = match outcome {
        SaveOutcome::Saved(id) => id,
        SaveOutcome::NothingToSave => panic!("expected a save"),
    };
    let history = repo.load_history();
    assert_eq!(history.len(), 1);
    assert_eq!(history[0], id);
    let commit = repo.load_commit(&id).unwrap();
    assert_eq!(commit.message, "test commit");
    assert_eq!(commit.branch, "main");
}

#[test]
fn test_save_no_changes() {
    let mut repo = init("proj", false).unwrap();
    let current = snap(&[("test.txt", b"hello")]);
    match repo.save(&current, Some("first save")) {
        SaveOutcome::Saved(_) => {}
        SaveOutcome::NothingToSave => panic!("expected a save"),
    }
    // saving the identical state again is a no-op
    let again = snap(&[("test.txt", b"hello")]);
    assert!(matches!(repo.save(&again, Some("again")), SaveOutcome::NothingToSave));
    assert_eq!(repo.load_history().len(), 1);
}

#[test]
fn test_undo_removes_latest_commit() {
    let mut repo = init("proj", false).unwrap();
    let v1 = snap(&[("test.txt", b"version 1")]);
    repo.save(&v1, Some("first"));
    let v2 = snap(&[("test.txt", b"version 2")]);
    repo.save(&v2, Some("second"));
    assert_eq!(repo.load_history().len(), 2);
    let out = repo.undo().unwrap();
    assert_eq!(repo.load_history().len(), 1);
    assert_eq!(out.message, "first");
    // the removed commit's record is gone
    assert!(matches!(repo.load_commit(&out.removed_id), Err(ArkError::NotFound)));
}

#[test]
fn test_undo_on_empty_history() {
    let mut repo = init("proj", false).unwrap();
    assert!(matches!(repo.undo(), Err(ArkError::NothingToUndo)));
}

#[test]
fn test_undo_first_save_fails() {
    let mut repo = init("proj", false).unwrap();
    let v1 = snap(&[("a.txt", b"x")]);
    repo.save(&v1, Some("genesis"));
    assert!(matches!(repo.undo(), Err(ArkError::FirstSave)));
}

#[test]
fn test_undo_restores_baseline() {
    // after save(S1), save(S2), undo: the baseline is S1's snapshot and a
    // check against still-changed content reports it as modified
    let mut repo = init("proj", false).unwrap();
    let s1 = snap(&[("a.txt", b"x")]);
    repo.save(&s1, Some("m1"));
    let s2 = snap(&[("a.txt", b"y")]);
    repo.save(&s2, Some("m2"));
    repo.undo().unwrap();
    assert_eq!(repo.load_history().len(), 1);
    let on_disk = snap(&[("a.txt", b"y")]);
    let changes = scan_changes(&repo.load_snapshot(), &on_disk);
    assert_eq!(changes.len(), 1);
    assert_eq!(changes[0].path, "a.txt");
    assert_eq!(changes[0].status, Status::Modified);
}

#[test]
fn test_end_to_end_scenario() {
    let mut repo = init("proj", false).unwrap();
    // empty directory: no changes
    let empty = snap(&[]);
    assert!(scan_changes(&repo.load_snapshot(), &empty).is_empty());
    // create a.txt = "x": one new entry
    let s1 = snap(&[("a.txt", b"x")]);
    let changes = scan_changes(&repo.load_snapshot(), &s1);
    assert_eq!(changes.len(), 1);
    assert_eq!(changes[0].path, "a.txt");
    assert_eq!(changes[0].status, Status::New);
    // save "m1": history length 1
    assert!(matches!(repo.save(&s1, Some("m1")), SaveOutcome::Saved(_)));
    assert_eq!(repo.load_history().len(), 1);
    // modify a.txt = "y", save "m2": history length 2, change was Modified
    let s2 = snap(&[("a.txt", b"y")]);
    let changes = scan_changes(&repo.load_snapshot(), &s2);
    assert_eq!(changes.len(), 1);
    assert_eq!(changes[0].status, Status::Modified);
    assert!(matches!(repo.save(&s2, Some("m2")), SaveOutcome::Saved(_)));
    assert_eq!(repo.load_history().len(), 2);
    // undo: history length 1; content still "y" on disk is Modified
    // relative to the restored baseline ("x")
    repo.undo().unwrap();
    assert_eq!(repo.load_history().len(), 1);
    let changes = scan_changes(&repo.load_snapshot(), &s2);
    assert_eq!(changes.len(), 1);
    assert_eq!(changes[0].path, "a.txt");
    assert_eq!(changes[0].status, Status::Modified);
}

#[test]
fn test_detection_idempotent_after_save() {
    let mut repo = init("proj", false).unwrap();
    let s1 = snap(&[("a.txt", b"x"), ("b.txt", b"y")]);
    repo.save(&s1, Some("m"));
    // two runs with no intervening mutation: empty both times
    let again = snap(&[("a.txt", b"x"), ("b.txt", b"y")]);
    assert!(scan_changes(&repo.load_snapshot(), &again).is_empty());
    assert!(scan_changes(&repo.load_snapshot(), &again).is_empty());
}

#[test]
fn test_auto_message() {
    let mut repo = init("proj", false).unwrap();
    let s1 = snap(&[("a.txt", b"x")]);
    let id = match repo.save(&s1, None) {
        SaveOutcome::Saved(id) => id,
        SaveOutcome::NothingToSave => panic!("expected a save"),
    };
    assert_eq!(repo.load_commit(&id).unwrap().message, "Auto: 1 new");
    // blank messages also fall back to the summary
    let s2 = snap(&[("a.txt", b"z"), ("b.txt", b"w")]);
    let id2 = match repo.save(&s2, Some("   ")) {
        SaveOutcome::Saved(id) => id,
        SaveOutcome::NothingToSave => panic!("expected a save"),
    };
    assert_eq!(repo.load_commit(&id2).unwrap().message, "Auto: 1 new, 1 modified");
}

#[test]
fn test_deleted_classification() {
    let mut repo = init("proj", false).unwrap();
    let s1 = snap(&[("a.txt", b"x"), ("b.txt", b"y")]);
    repo.save(&s1, Some("m"));
    let s2 = snap(&[("a.txt", b"x")]);
    let changes = scan_changes(&repo.load_snapshot(), &s2);
    assert_eq!(changes.len(), 1);
    assert_eq!(changes[0].path, "b.txt");
    assert_eq!(changes[0].status, Status::Deleted);
}

#[test]
fn test_changes_sorted_by_path() {
    let baseline = snap(&[("m.txt", b"1")]);
    let current = snap(&[("z.txt", b"2"), ("a.txt", b"3")]);
    let changes = scan_changes(&baseline, &current);
    assert_eq!(changes.len(), 3);
    assert_eq!(changes[0].path, "a.txt");
    assert_eq!(changes[0].status, Status::New);
    assert_eq!(changes[1].path, "m.txt");
    assert_eq!(changes[1].status, Status::Deleted);
    assert_eq!(changes[2].path, "z.txt");
    assert_eq!(changes[2].status, Status::New);
}

#[test]
fn test_build_snapshot_ignores_reserved_paths() {
    let s = snap(&[
        (".ark/config.json", b"{}"),
        ("target/out.bin", b"bin"),
        (".git/HEAD", b"ref"),
        (".env", b"KEY=1"),
        ("src.rs", b"fn"),
    ]);
    assert_eq!(s.len(), 1);
    assert!(s.get("src.rs").is_some());
    assert!(s.get(".env").is_none());
}
