use std::time::{SystemTime, UNIX_EPOCH};

use lmutib::lineage::{
    branch_from, checkout_label, exclude_default, head_commit, init_lineage, list_branches,
    snapshot_all, stage_status, Git, LineageError,
};

fn fresh_repo(tag: &str) -> Git {
    let nanos = SystemTime::now().duration_since(UNIX_EPOCH).unwrap().as_nanos();
    let dir = format!("/tmp/lmutib_{}_{}", tag, nanos);
    Git::new(&dir).unwrap()
}

#[test]
fn init_creates_an_initial_commit() {
    let git = fresh_repo("init");
    let oid = init_lineage(&git);
    assert!(oid.is_ok());
    assert!(head_commit(&git).is_ok());
    // Only the default branch exists, and the listing excludes it.
    let branches = list_branches(&git).unwrap();
    assert!(branches.is_empty());
}

#[test]
fn branch_checkout_and_listing() {
    let git = fresh_repo("branch");
    init_lineage(&git).unwrap();
    let head = head_commit(&git).unwrap();
    branch_from(&git, b"cfg-cb", head).unwrap();
    checkout_label(&git, b"cfg-cb").unwrap();
    let branches = list_branches(&git).unwrap();
    assert_eq!(branches.len(), 1);
    assert_eq!(branches[0].as_slice(), b"cfg-cb");
}

#[test]
fn branching_twice_with_one_label_collides() {
    let git = fresh_repo("collide");
    init_lineage(&git).unwrap();
    let head = head_commit(&git).unwrap();
    branch_from(&git, b"cfg-cb", head).unwrap();
    let second = branch_from(&git, b"cfg-cb", head);
    assert!(matches!(second, Err(LineageError::LabelCollision)));
}

#[test]
fn checkout_of_unknown_label_fails() {
    let git = fresh_repo("unknown");
    init_lineage(&git).unwrap();
    let r = checkout_label(&git, b"no-such-branch");
    assert!(matches!(r, Err(LineageError::UnknownRef)));
}

#[test]
fn snapshot_with_no_changes_is_tolerated() {
    let git = fresh_repo("nochange");
    init_lineage(&git).unwrap();
    let again = snapshot_all(&git, "nothing changed");
    assert!(again.is_ok());
}

#[test]
fn staging_decision_by_status() {
    assert_eq!(stage_status(true, false, false, false), 0);
    assert_eq!(stage_status(false, true, false, false), 0);
    assert_eq!(stage_status(false, false, false, true), 0);
    // An ignored path is never staged, whatever else its status says.
    assert_eq!(stage_status(false, false, true, false), 1);
    assert_eq!(stage_status(false, true, true, false), 1);
    assert_eq!(stage_status(false, false, false, false), 1);
}

#[test]
fn exclude_default_drops_only_the_default_branch() {
    let names = vec![
        b"a-cb".to_vec(),
        b"master".to_vec(),
        b"b-cb-x-ib".to_vec(),
    ];
    let kept = exclude_default(names);
    assert_eq!(kept.len(), 2);
    assert_eq!(kept[0].as_slice(), b"a-cb");
    assert_eq!(kept[1].as_slice(), b"b-cb-x-ib");
}
