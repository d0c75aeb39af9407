use ark::errors::ArkError;
use ark::repo::{init, SaveOutcome};
use ark::snapshot::Snapshot;
use ark::tracker::build_snapshot;

fn snap(entries: &[(&str, &[u8])]) -> Snapshot {
    let files: Vec<(String, Vec<u8>)> =
        entries.iter().map(|(p, c)| (p.to_string(), c.to_vec())).collect();
    build_snapshot(&files)
}

#[test]
fn test_create_and_list_branches() {
    let mut repo = init("proj", false).unwrap();
    repo.create_branch("feature").unwrap();
    repo.create_branch("bugfix").unwrap();
    let names = repo.list_branches();
    assert_eq!(names, vec!["bugfix".to_string(), "feature".to_string(), "main".to_string()]);
}

#[test]
fn test_create_duplicate_branch_fails() {
    let mut repo = init("proj", false).unwrap();
    repo.create_branch("feature").unwrap();
    assert!(matches!(repo.create_branch("feature"), Err(ArkError::AlreadyExists)));
    assert!(matches!(repo.create_branch("main"), Err(ArkError::AlreadyExists)));
}

#[test]
fn test_switch_branch() {
    let mut repo = init("proj", false).unwrap();
    repo.create_branch("feature").unwrap();
    repo.set_current_branch("feature").unwrap();
    assert_eq!(repo.get_current_branch(), "feature");
    assert!(matches!(repo.set_current_branch("missing"), Err(ArkError::NotFound)));
    assert_eq!(repo.get_current_branch(), "feature");
}

#[test]
fn test_branch_inherits_history() {
    let mut repo = init("proj", false).unwrap();
    let s1 = snap(&[("a.txt", b"x")]);
    repo.save(&s1, Some("m1"));
    repo.create_branch("feature").unwrap();
    repo.set_current_branch("feature").unwrap();
    assert_eq!(repo.load_history().len(), 1);
}

#[test]
fn test_branch_isolation() {
    // saving on branch b grows only b's history; main's history and
    // baseline stay as they were
    let mut repo = init("proj", false).unwrap();
    let s1 = snap(&[("a.txt", b"x")]);
    repo.save(&s1, Some("m1"));
    repo.create_branch("feature").unwrap();
    repo.set_current_branch("feature").unwrap();
    let s2 = snap(&[("a.txt", b"x"), ("b.txt", b"y")]);
    assert!(matches!(repo.save(&s2, Some("m2")), SaveOutcome::Saved(_)));
    assert_eq!(repo.load_history().len(), 2);
    repo.set_current_branch("main").unwrap();
    assert_eq!(repo.load_history().len(), 1);
    // main's baseline is untouched: only b.txt differs from it
    let changes = ark::tracker::scan_changes(&repo.load_snapshot(), &s2);
    assert_eq!(changes.len(), 1);
    assert_eq!(changes[0].path, "b.txt");
}

#[test]
fn test_delete_protection() {
    let mut repo = init("proj", false).unwrap();
    repo.create_branch("feature").unwrap();
    // "main" is always protected
    assert!(matches!(repo.delete_branch("main"), Err(ArkError::Protected)));
    // the active branch is protected whatever its name
    repo.set_current_branch("feature").unwrap();
    assert!(matches!(repo.delete_branch("feature"), Err(ArkError::Protected)));
    // back on main, feature can go; unknown names are not found
    repo.set_current_branch("main").unwrap();
    assert!(matches!(repo.delete_branch("missing"), Err(ArkError::NotFound)));
    repo.delete_branch("feature").unwrap();
    assert!(!repo.branch_exists("feature"));
    assert!(repo.branch_exists("main"));
}

#[test]
fn test_load_branch() {
    let mut repo = init("proj", false).unwrap();
    let s1 = snap(&[("a.txt", b"x")]);
    repo.save(&s1, Some("m1"));
    let b = repo.load_branch("main").unwrap();
    assert_eq!(b.name, "main");
    assert_eq!(b.commit_ids.len(), 1);
    assert!(matches!(repo.load_branch("missing"), Err(ArkError::NotFound)));
}

#[test]
fn test_load_commit_not_found() {
    let repo = init("proj", false).unwrap();
    assert!(matches!(repo.load_commit("nope"), Err(ArkError::NotFound)));
}

#[test]
fn test_generate_id_is_fresh() {
    let mut repo = init("proj", false).unwrap();
    assert_eq!(repo.generate_id(), "0");
    let s1 = snap(&[("a.txt", b"x")]);
    repo.save(&s1, Some("m1"));
    assert_eq!(repo.generate_id(), "1");
    let history = repo.load_history();
    assert_eq!(history, vec!["0".to_string()]);
}
