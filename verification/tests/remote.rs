//! Remotes: push, fetch, pull and clone.

use versioning::model::{CommitId, VersionError, VersionResult};
use versioning::refs::{RefName, RefStore};
use versioning::remote::PullOutcome;
use versioning::remote_transport::{MemHub, MemTransport, Objects, RemoteTransport};
use versioning::remote_wire::{RemoteRefs, SnapshotId, SourceId};
use versioning::staging::VcStore;
use versioning::values::{VcRow, VcValue};

/// A transport that counts the bytes of the objects it moves.
struct Counting {
    inner: MemTransport,
    get_bytes: usize,
    put_bytes: usize,
}

impl RemoteTransport for Counting {
    type State = ();

    fn get_refs(&mut self) -> VersionResult<Vec<u8>> {
        self.inner.get_refs()
    }

    fn default_branch(&mut self) -> VersionResult<String> {
        self.inner.default_branch()
    }

    fn find_branch(&mut self, branch: &str) -> VersionResult<Option<CommitId>> {
        self.inner.find_branch(branch)
    }

    fn walk(&mut self, tip: CommitId) -> VersionResult<Vec<SourceId>> {
        self.inner.walk(tip)
    }

    fn has_many(&mut self, ids: &Vec<SourceId>) -> VersionResult<Vec<bool>> {
        self.inner.has_many(ids)
    }

    fn get_batch(&mut self, ids: &Vec<SourceId>) -> VersionResult<Vec<(SourceId, Vec<u8>)>> {
        let objects = self.inner.get_batch(ids)?;
        let bytes: usize = objects.iter().map(|(_, b)| b.len()).sum();
        self.get_bytes += bytes;
        Ok(objects)
    }

    fn put_batch(
        &mut self,
        objects: &Vec<(SourceId, Vec<u8>)>,
        snap_lists: &Vec<(CommitId, Vec<SnapshotId>)>,
    ) -> VersionResult<()> {
        let bytes: usize = objects.iter().map(|(_, b)| b.len()).sum();
        self.put_bytes += bytes;
        self.inner.put_batch(objects, snap_lists)
    }

    fn update_branch(&mut self, branch: &str, commit: CommitId, force: bool) -> VersionResult<()> {
        self.inner.update_branch(branch, commit, force)
    }

    fn replace_refs(&mut self, refs: &RemoteRefs) -> VersionResult<()> {
        self.inner.replace_refs(refs)
    }
}

fn endpoint(name: &str) -> MemTransport {
    MemTransport::open(&mut MemHub::new(), name, false, None)
}

/// A store with author config and one committed table.
fn seeded_store(label: &str, rows: &[(&i64, &str)]) -> VcStore {
    let mut store = VcStore::new("main");
    store.config_set("user.name", "Ada");
    store.config_set("user.email", "ada@example.com");
    store.set_now(1000);
    let vrows: Vec<VcRow> = rows
        .iter()
        .map(|(id, name)| {
            VcRow::new(vec![
                VcValue::Integer(**id),
                VcValue::Text(name.to_string()),
            ])
        })
        .collect();
    store.apply_work(
        "users",
        vec!["id".to_string(), "name".to_string()],
        vec!["id".to_string()],
        vrows,
        "CREATE TABLE users (id INTEGER PRIMARY KEY, name TEXT)".to_string(),
    );
    store.track_table("users");
    store.dolt_add(&["users"]).unwrap();
    store.dolt_commit("seed", None, false, false).unwrap();
    store.record_snapshot(
        store.head_commit().unwrap(),
        "users",
        vec!["id".to_string(), "name".to_string()],
        vec!["id".to_string()],
        store.work_table("users").unwrap().rows.clone(),
        "CREATE TABLE users (id INTEGER PRIMARY KEY, name TEXT)".to_string(),
    );
    let _ = label;
    store
}

fn committed_rows(store: &VcStore, commit: CommitId) -> Vec<VcRow> {
    store
        .snapshots
        .get(&commit)
        .and_then(|tables| tables.get(&"users".to_string()))
        .map(|s| s.rows.clone())
        .unwrap_or_default()
}

#[test]
fn remote_registry_add_remove_and_errors() {
    let mut store = VcStore::new("main");
    store.remote_add("  origin  ", "mem://rt-reg-1").unwrap();
    assert_eq!(store.remote_configs().len(), 1);
    assert_eq!(store.remote_configs()[0].name, "origin");
    assert_eq!(
        store.remote_add("origin", "mem://rt-reg-2").unwrap_err(),
        VersionError::RemoteAlreadyExists
    );
    assert_eq!(
        store.remote_add("bad/name", "mem://rt-reg-3").unwrap_err(),
        VersionError::RemoteNameInvalid
    );
    assert_eq!(
        store.remote_remove("missing").unwrap_err(),
        VersionError::RemoteNotFound
    );
    store.remote_remove("  origin  ").unwrap();
    assert!(store.remote_configs().is_empty());
}

#[test]
fn remote_remove_drops_tracking() {
    let mut t = endpoint("rt-track-1");
    let mut store = seeded_store("rt-track", &[(&1, "a")]);
    store.remote_add("origin", "mem://rt-track-1").unwrap();
    store.push(&mut t, "origin", "main", false).unwrap();
    let tip = store.head_commit().unwrap();
    store
        .tracking
        .insert(("origin".to_string(), "main".to_string()), tip);
    store.remote_remove("origin").unwrap();
    assert!(store.tracking.len() == 0);
}

#[test]
fn remote_push_uploads_closure_and_moves_ref() {
    let mut t = endpoint("rt-push-1");
    let mut store = seeded_store("rt-push", &[(&1, "a"), (&2, "b")]);
    store.remote_add("origin", "mem://rt-push-1").unwrap();
    store.push(&mut t, "origin", "main", false).unwrap();
    let tip = store.head_commit().unwrap();
    assert_eq!(t.find_branch("main").unwrap(), Some(tip));
    let closure = t.walk(tip).unwrap();
    assert!(closure.contains(&SourceId::Commit(tip)));
    // The snapshot record arrived too.
    let snap = store
        .snapshot_id_of(&tip, "users")
        .expect("snapshot id indexed");
    assert!(closure.contains(&SourceId::Snapshot(snap)));
}

#[test]
fn remote_push_twice_moves_zero_objects() {
    let mut store = seeded_store("rt-push2", &[(&1, "a")]);
    let mut t = Counting {
        inner: endpoint("rt-push2-1"),
        get_bytes: 0,
        put_bytes: 0,
    };
    store.remote_add("origin", "mem://rt-push2-1").unwrap();
    store.push(&mut t, "origin", "main", false).unwrap();
    assert!(t.put_bytes > 0);
    t.inner
        .update_branch("main", store.head_commit().unwrap(), true)
        .unwrap();
    let mut again = seeded_store("rt-push2c", &[(&1, "a")]);
    again.remote_add("origin", "mem://rt-push2-1").unwrap();
    let before = t.put_bytes;
    again.push(&mut t, "origin", "main", false).unwrap();
    again.push(&mut t, "origin", "main", false).unwrap();
    assert_eq!(t.put_bytes, before);
    let tip = again.head_commit().unwrap();
    let closure = t.walk(tip).unwrap();
    let present = t.has_many(&closure).unwrap();
    assert!(present.iter().all(|&p| p));
}

#[test]
fn remote_push_rejects_non_fast_forward_and_force_overrides() {
    let mut t = endpoint("rt-nff-1");
    let mut a = seeded_store("rt-nff-a", &[(&1, "a")]);
    a.remote_add("origin", "mem://rt-nff-1").unwrap();
    a.push(&mut t, "origin", "main", false).unwrap();

    // Same seed content; then BOTH sides advance from the shared seed,
    // so the tips diverge with neither an ancestor of the other.
    let mut b = seeded_store("rt-nff-b", &[(&1, "a")]);
    b.remote_add("origin", "mem://rt-nff-1").unwrap();
    b.set_now(2000);
    b.apply_work(
        "users",
        vec!["id".to_string(), "name".to_string()],
        vec!["id".to_string()],
        vec![
            VcRow::new(vec![VcValue::Integer(1), VcValue::Text("a".into())]),
            VcRow::new(vec![VcValue::Integer(2), VcValue::Text("b".into())]),
        ],
        "CREATE TABLE users (id INTEGER PRIMARY KEY, name TEXT)".to_string(),
    );
    b.dolt_add(&["users"]).unwrap();
    b.dolt_commit("b-local", None, false, false).unwrap();

    a.set_now(2500);
    a.apply_work(
        "users",
        vec!["id".to_string(), "name".to_string()],
        vec!["id".to_string()],
        vec![VcRow::new(vec![
            VcValue::Integer(1),
            VcValue::Text("a2".into()),
        ])],
        "CREATE TABLE users (id INTEGER PRIMARY KEY, name TEXT)".to_string(),
    );
    a.dolt_add(&["users"]).unwrap();
    a.dolt_commit("a-moves-on", None, false, false).unwrap();
    a.push(&mut t, "origin", "main", false).unwrap();

    assert_eq!(
        b.push(&mut t, "origin", "main", false).unwrap_err(),
        VersionError::PushNotFastForward
    );
    b.push(&mut t, "origin", "main", true).unwrap();
    assert_eq!(
        t.find_branch("main").unwrap(),
        Some(b.head_commit().unwrap())
    );
}

#[test]
fn remote_push_unknown_remote_and_branch() {
    let mut t = endpoint("rt-unknown-1");
    let mut store = seeded_store("rt-unknown", &[(&1, "a")]);
    assert_eq!(
        store.push(&mut t, "origin", "main", false).unwrap_err(),
        VersionError::RemoteNotFound
    );
    store.remote_add("origin", "mem://rt-unknown-1").unwrap();
    assert_eq!(
        store.push(&mut t, "origin", "nope", false).unwrap_err(),
        VersionError::BranchNotFound("nope".to_string())
    );
}

#[test]
fn remote_fetch_populates_objects_and_tracking() {
    let mut t = endpoint("rt-fetch-1");
    let mut a = seeded_store("rt-fetch-a", &[(&1, "a"), (&2, "b")]);
    a.remote_add("origin", "mem://rt-fetch-1").unwrap();
    a.push(&mut t, "origin", "main", false).unwrap();
    let tip = a.head_commit().unwrap();
    let expected_rows = committed_rows(&a, tip);

    let mut b = VcStore::new("main");
    b.remote_add("origin", "mem://rt-fetch-1").unwrap();
    b.fetch(&mut t, "origin", "main").unwrap();
    assert_eq!(
        b.tracking.get(&("origin".to_string(), "main".to_string())),
        Some(&tip)
    );
    assert_eq!(committed_rows(&b, tip), expected_rows);
    // Local branches untouched.
    assert_eq!(b.head_commit(), None);
}

#[test]
fn remote_fetch_unknown_branch_and_remote() {
    let mut t = endpoint("rt-fetchb-1");
    let mut a = seeded_store("rt-fetchb-a", &[(&1, "a")]);
    a.remote_add("origin", "mem://rt-fetchb-1").unwrap();
    a.push(&mut t, "origin", "main", false).unwrap();
    let mut b = VcStore::new("main");
    b.remote_add("origin", "mem://rt-fetchb-1").unwrap();
    assert_eq!(
        b.fetch(&mut t, "origin", "ghost").unwrap_err(),
        VersionError::FetchBranchNotFound
    );
    assert_eq!(
        b.fetch(&mut t, "missing", "main").unwrap_err(),
        VersionError::RemoteNotFound
    );
}

#[test]
fn remote_fetch_up_to_date_transfers_nothing() {
    let mut t = endpoint("rt-fetch2-1");
    let mut a = seeded_store("rt-fetch2-a", &[(&1, "a")]);
    a.remote_add("origin", "mem://rt-fetch2-1").unwrap();
    a.push(&mut t, "origin", "main", false).unwrap();
    let mut b = VcStore::new("main");
    b.remote_add("origin", "mem://rt-fetch2-1").unwrap();
    b.fetch(&mut t, "origin", "main").unwrap();
    b.fetch(&mut t, "origin", "main").unwrap();
    // A fresh walk is fully present locally.
    let closure = t.walk(a.head_commit().unwrap()).unwrap();
    for id in closure {
        assert!(b.has_object(&id), "object {id:?} should be local");
    }
}

#[test]
fn remote_pull_fast_forward_applies_work() {
    let mut t = endpoint("rt-pull-1");
    let mut a = seeded_store("rt-pull-a", &[(&1, "a")]);
    a.remote_add("origin", "mem://rt-pull-1").unwrap();
    a.push(&mut t, "origin", "main", false).unwrap();

    let mut b = VcStore::new("main");
    b.remote_add("origin", "mem://rt-pull-1").unwrap();
    b.fetch(&mut t, "origin", "main").unwrap();
    b.refs
        .set(&RefName::branch("main"), a.head_commit().unwrap());
    b.branches.insert("main");

    a.apply_work(
        "users",
        vec!["id".to_string(), "name".to_string()],
        vec!["id".to_string()],
        vec![
            VcRow::new(vec![VcValue::Integer(1), VcValue::Text("a".into())]),
            VcRow::new(vec![VcValue::Integer(2), VcValue::Text("b".into())]),
        ],
        "CREATE TABLE users (id INTEGER PRIMARY KEY, name TEXT)".to_string(),
    );
    a.dolt_add(&["users"]).unwrap();
    let new_tip = a.dolt_commit("second", None, false, false).unwrap();
    a.record_snapshot(
        new_tip,
        "users",
        vec!["id".to_string(), "name".to_string()],
        vec!["id".to_string()],
        a.work_table("users").unwrap().rows.clone(),
        "CREATE TABLE users (id INTEGER PRIMARY KEY, name TEXT)".to_string(),
    );
    a.push(&mut t, "origin", "main", false).unwrap();

    assert_eq!(
        b.pull(&mut t, "origin", "main").unwrap(),
        PullOutcome::FastForwarded
    );
    assert_eq!(b.head_commit(), Some(new_tip));
    assert_eq!(b.work_table("users").unwrap().rows.len(), 2);
}

#[test]
fn remote_pull_refuses_uncommitted_changes() {
    let mut t = endpoint("rt-pull2-1");
    let mut b = VcStore::new("main");
    b.remote_add("origin", "mem://rt-pull2-1").unwrap();
    // Seed the remote through a sibling store so fetch has something.
    let mut a = seeded_store("rt-pull2-a", &[(&1, "a")]);
    a.remote_add("origin", "mem://rt-pull2-1").unwrap();
    a.push(&mut t, "origin", "main", false).unwrap();
    b.fetch(&mut t, "origin", "main").unwrap();
    b.refs
        .set(&RefName::branch("main"), a.head_commit().unwrap());
    b.branches.insert("main");

    b.apply_work(
        "users",
        vec!["id".to_string()],
        vec!["id".to_string()],
        vec![VcRow::new(vec![VcValue::Integer(9)])],
        String::new(),
    );
    b.track_table("users");
    assert_eq!(
        b.pull(&mut t, "origin", "main").unwrap_err(),
        VersionError::PullUncommittedChanges
    );
}

#[test]
fn remote_pull_diverged_non_current_refused() {
    let mut t = endpoint("rt-pull3-1");
    let mut a = seeded_store("rt-pull3-a", &[(&1, "a")]);
    a.create_branch("feature").unwrap();
    a.remote_add("origin", "mem://rt-pull3-1").unwrap();
    a.push(&mut t, "origin", "main", false).unwrap();
    a.push(&mut t, "origin", "feature", false).unwrap();

    // b clones main only, then builds a LOCAL feature that shares no
    // history with the remote's feature tip.
    let mut b = VcStore::new("main");
    b.remote_add("origin", "mem://rt-pull3-1").unwrap();
    b.fetch(&mut t, "origin", "main").unwrap();
    let remote_main = *b
        .tracking
        .get(&("origin".to_string(), "main".to_string()))
        .unwrap();
    b.refs.set(&RefName::branch("main"), remote_main);
    b.branches.insert("main");

    b.config_set("user.name", "Bob");
    b.config_set("user.email", "bob@example.com");
    b.set_now(3000);
    b.apply_work(
        "feature_t",
        vec!["id".to_string()],
        vec!["id".to_string()],
        vec![VcRow::new(vec![VcValue::Integer(1)])],
        String::new(),
    );
    b.track_table("feature_t");
    b.dolt_add(&["feature_t"]).unwrap();
    let local_tip = b.dolt_commit("local feature", None, false, false).unwrap();
    b.refs.set(&RefName::branch("feature"), local_tip);
    b.branches.insert("feature");

    // b stays on main; remote feature diverges from b's local feature.
    assert_eq!(
        b.pull(&mut t, "origin", "feature").unwrap_err(),
        VersionError::PullNonCurrentNotFastForward
    );
}

#[test]
fn remote_clone_full_materializes_everything() {
    let mut t = endpoint("rt-clone-1");
    let mut a = seeded_store("rt-clone-a", &[(&1, "a"), (&2, "b")]);
    a.create_branch("feature").unwrap();
    a.remote_add("origin", "mem://rt-clone-1").unwrap();
    a.push(&mut t, "origin", "main", false).unwrap();
    a.push(&mut t, "origin", "feature", false).unwrap();

    let mut b = VcStore::new("main");
    b.clone_remote(&mut t, "mem://rt-clone-1", false).unwrap();
    assert_eq!(b.active_branch(), Some("main"));
    assert_eq!(b.remote_configs().len(), 1);
    assert_eq!(b.remote_configs()[0].name, "origin");
    assert_eq!(b.head_commit(), a.head_commit());
    assert_eq!(b.work_table("users").unwrap().rows.len(), 2);
    assert!(b.list_branches().contains(&"feature".to_string()));
    assert_eq!(
        b.tracking.get(&("origin".to_string(), "main".to_string())),
        Some(&a.head_commit().unwrap())
    );
}

#[test]
fn remote_clone_lazy_keeps_refs_only() {
    let mut t = endpoint("rt-lclone-1");
    let mut a = seeded_store("rt-lclone-a", &[(&1, "a")]);
    a.remote_add("origin", "mem://rt-lclone-1").unwrap();
    a.push(&mut t, "origin", "main", false).unwrap();

    let mut b = VcStore::new("main");
    b.clone_remote(&mut t, "mem://rt-lclone-1", true).unwrap();
    assert_eq!(b.active_branch(), Some("main"));
    assert_eq!(b.head_commit(), a.head_commit());
    assert_eq!(b.lazy_origin(), Some("mem://rt-lclone-1"));
    // Lazy: the tip commit is not local yet.
    assert!(b.get_commit(&a.head_commit().unwrap()).is_none());
    assert!(b.work_table("users").is_none());
}

#[test]
fn remote_clone_refuses_non_empty_and_twice() {
    let mut t = endpoint("rt-clone2-1");
    let mut a = seeded_store("rt-clone2-a", &[(&1, "a")]);
    a.remote_add("origin", "mem://rt-clone2-1").unwrap();
    a.push(&mut t, "origin", "main", false).unwrap();

    let mut b = seeded_store("rt-clone2-b", &[(&1, "x")]);
    assert_eq!(
        b.clone_remote(&mut t, "mem://rt-clone2-1", false).unwrap_err(),
        VersionError::CloneNotEmpty
    );

    let mut c = VcStore::new("main");
    c.clone_remote(&mut t, "mem://rt-clone2-1", false).unwrap();
    assert_eq!(
        c.clone_remote(&mut t, "mem://rt-clone2-1", false).unwrap_err(),
        VersionError::CloneNotEmpty
    );
}

#[test]
fn remote_fetch_failure_leaves_refs_and_tracking_unchanged() {
    let mut t = endpoint("rt-fail-1");
    let mut a = seeded_store("rt-fail-a", &[(&1, "a")]);
    a.remote_add("origin", "mem://rt-fail-1").unwrap();
    a.push(&mut t, "origin", "main", false).unwrap();

    // Without its objects the remote fails in the middle of a fetch.
    t.endpoint.objects = Objects::new();

    let mut b = VcStore::new("main");
    b.remote_add("origin", "mem://rt-fail-1").unwrap();
    assert!(b.fetch(&mut t, "origin", "main").is_err());
    assert!(b.tracking.len() == 0);
    assert!(b.head_commit().is_none());
}

#[test]
fn remote_tracking_name_resolves_as_revision() {
    let mut t = endpoint("rt-rev-1");
    let mut a = seeded_store("rt-rev-a", &[(&1, "a")]);
    a.remote_add("origin", "mem://rt-rev-1").unwrap();
    a.push(&mut t, "origin", "main", false).unwrap();
    let mut b = VcStore::new("main");
    b.remote_add("origin", "mem://rt-rev-1").unwrap();
    b.fetch(&mut t, "origin", "main").unwrap();
    let tip = a.head_commit().unwrap();
    assert_eq!(b.resolve("remotes/origin/main").unwrap(), tip);
    assert_eq!(
        b.resolve("remotes/origin/ghost").unwrap_err(),
        VersionError::BranchNotFound("remotes/origin/ghost".to_string())
    );
}

#[test]
fn a_second_push_goes_well_and_sends_nothing() {
    let mut s = seeded_store("again", &[(&1, "a")]);
    s.remote_add("origin", "mem://again").unwrap();
    let tip = s.head_commit().unwrap();
    let mut t = Counting {
        inner: endpoint("again"),
        get_bytes: 0,
        put_bytes: 0,
    };
    s.push(&mut t, "origin", "main", false).unwrap();
    let sent = t.put_bytes;
    assert!(sent > 0);
    for force in [false, true] {
        assert_eq!(s.push(&mut t, "origin", "main", force), Ok(()));
        assert_eq!(t.put_bytes, sent);
        assert_eq!(t.find_branch("main"), Ok(Some(tip)));
    }
}
