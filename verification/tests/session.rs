//! The branch of a connection.

use versioning::model::CommitId;
use versioning::session::SessionBranch;

#[test]
fn session_active_branch_tracks_checkout() {
    let mut s = SessionBranch::new("main");
    assert_eq!(s.active_branch().unwrap().name, "main");
    s.checkout("dev");
    assert_eq!(s.active_branch().unwrap().name, "dev");
    s.open_branch("feature");
    assert_eq!(s.active_branch().unwrap().name, "feature");
}

#[test]
fn session_detached_hides_branch_and_blocks_writes() {
    let mut s = SessionBranch::new("main");
    let snapshot = CommitId([0x11; 20]);
    s.open_detached(snapshot);
    assert!(s.active_branch().is_none());
    assert_eq!(s.snapshot(), Some(snapshot));
    assert_eq!(
        s.guard_write().unwrap_err().to_string(),
        "cannot write in detached HEAD state"
    );
}

#[test]
fn session_checkout_reattaches_and_unblocks_writes() {
    let mut s = SessionBranch::new("main");
    s.open_detached(CommitId([0x22; 20]));
    s.checkout("dev");
    assert_eq!(s.active_branch().unwrap().name, "dev");
    assert!(s.guard_write().is_ok());
}
