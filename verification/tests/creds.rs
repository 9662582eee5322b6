//! Credentials.

use versioning::creds::{CredStore, MemCredStore};
use versioning::model::VersionError;

#[test]
fn creds_issue_lists_and_activates() {
    let mut store = MemCredStore::new();
    store.set_now(1_000);
    let a = store.issue();
    store.set_now(2_000);
    let b = store.issue();
    assert_ne!(a.kid, b.kid);
    // Issuing activates the newest credential.
    assert_eq!(store.active().as_deref(), Some(b.kid.as_str()));
    assert_eq!(store.list(), vec![b.kid, a.kid]);
}

#[test]
fn creds_deterministic_under_same_clock() {
    let mut x = MemCredStore::new();
    let mut y = MemCredStore::new();
    x.set_now(777);
    y.set_now(777);
    assert_eq!(x.issue().kid, y.issue().kid);
}

#[test]
fn creds_set_active_requires_known_kid() {
    let mut store = MemCredStore::new();
    let a = store.issue();
    store.issue();
    store.set_active(&a.kid).unwrap();
    assert_eq!(store.active().as_deref(), Some(a.kid.as_str()));
    assert_eq!(
        store.set_active("nope").unwrap_err(),
        VersionError::NoSuchCredential
    );
}

#[test]
fn creds_remove_drops_and_deactivates() {
    let mut store = MemCredStore::new();
    let a = store.issue();
    store.remove(&a.kid).unwrap();
    assert!(store.list().is_empty());
    assert_eq!(store.active(), None);
    assert_eq!(
        store.remove(&a.kid).unwrap_err(),
        VersionError::NoSuchCredential
    );
}
