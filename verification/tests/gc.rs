//! Collecting what nothing refers to.

use versioning::assoc::{AssocMap, AssocSet};
use versioning::commit::{Commit, CommitMeta, CommitStore};
use versioning::gc::{collect_garbage, gc_compact, gc_exclusive, mark, sweep, GcSnapshot};
use versioning::model::{ChunkHash, CommitId, RootHash, VersionError};
use versioning::refs::{RefNs, RefStore};
use versioning::staging::{TableSnapshot, VcStore};
use versioning::values::{VcRow, VcValue};

#[test]
fn gc_stub_marks_live_set() {
    let a = ChunkHash([0x01; 20]);
    let b = ChunkHash([0x02; 20]);
    let c = ChunkHash([0x03; 20]);
    let d = ChunkHash([0x04; 20]);

    let mut refs = AssocMap::new();
    refs.insert(a, vec![b, c]);
    refs.insert(b, vec![d]);

    let mut all = AssocSet::new();
    all.insert(a);
    all.insert(b);
    all.insert(c);
    all.insert(d);

    let snapshot = GcSnapshot {
        all_chunks: all,
        refs,
        commit_refs: AssocMap::new(),
        working_sets: vec![vec![a]],
    };

    let live = mark(&snapshot);
    assert!(live.contains(&a));
    assert!(live.contains(&b));
    assert!(live.contains(&c));
    assert!(live.contains(&d));

    let removal = sweep(&snapshot, &live);
    assert!(removal.is_empty());
}

#[test]
fn gc_stub_sweep_removes_unreachable() {
    let a = ChunkHash([0x01; 20]);
    let b = ChunkHash([0x02; 20]);
    let orphan = ChunkHash([0x03; 20]);

    let mut refs = AssocMap::new();
    refs.insert(a, vec![b]);

    let mut all = AssocSet::new();
    all.insert(a);
    all.insert(b);
    all.insert(orphan);

    let snapshot = GcSnapshot {
        all_chunks: all,
        refs,
        commit_refs: AssocMap::new(),
        working_sets: vec![vec![a]],
    };

    let live = mark(&snapshot);
    let removal = sweep(&snapshot, &live);
    assert_eq!(removal.len(), 1);
    assert_eq!(removal[0], orphan);
}

#[test]
fn gc_cycle_does_not_loop() {
    let a = ChunkHash([0x01; 20]);
    let b = ChunkHash([0x02; 20]);

    let mut refs = AssocMap::new();
    refs.insert(a, vec![b]);
    refs.insert(b, vec![a]);

    let mut all = AssocSet::new();
    all.insert(a);
    all.insert(b);

    let snapshot = GcSnapshot {
        all_chunks: all,
        refs,
        commit_refs: AssocMap::new(),
        working_sets: vec![vec![a]],
    };

    let live = mark(&snapshot);
    assert_eq!(live.len(), 2);
}

#[test]
fn gc_self_loop() {
    let a = ChunkHash([0x01; 20]);

    let mut refs = AssocMap::new();
    refs.insert(a, vec![a]);

    let mut all = AssocSet::new();
    all.insert(a);

    let snapshot = GcSnapshot {
        all_chunks: all,
        refs,
        commit_refs: AssocMap::new(),
        working_sets: vec![vec![a]],
    };

    let live = mark(&snapshot);
    assert_eq!(live.len(), 1);
}

#[test]
fn gc_commit_traversal_keeps_reachable_chunks() {
    // A chunk of a reached commit survives, one of an unreached commit does
    // not.
    let root_commit = ChunkHash([0x11; 20]);
    let kept_chunk = ChunkHash([0x21; 20]);
    let dead_commit = ChunkHash([0x31; 20]);
    let dead_chunk = ChunkHash([0x41; 20]);

    let mut commit_refs = AssocMap::new();
    commit_refs.insert(root_commit, vec![kept_chunk]);
    commit_refs.insert(dead_commit, vec![dead_chunk]);

    let mut all = AssocSet::new();
    all.insert(root_commit);
    all.insert(kept_chunk);
    all.insert(dead_commit);
    all.insert(dead_chunk);

    let snapshot = GcSnapshot {
        all_chunks: all,
        refs: AssocMap::new(),
        commit_refs,
        // The working set roots at the reachable commit.
        working_sets: vec![vec![root_commit]],
    };

    let live = mark(&snapshot);
    assert!(live.contains(&root_commit));
    assert!(live.contains(&kept_chunk));
    assert!(!live.contains(&dead_commit));
    assert!(!live.contains(&dead_chunk));
}

fn store_with_history() -> (VcStore, CommitId, CommitId) {
    let mut store = VcStore::new("main");
    store.config_set("user.name", "A");
    store.config_set("user.email", "a@b");
    store.set_now(10);
    let rows = |n: i64| {
        vec![VcRow::new(vec![
            VcValue::Integer(n),
            VcValue::Text("x".into()),
        ])]
    };
    for i in 0..2 {
        store.apply_work(
            "t",
            vec!["id".to_string(), "v".to_string()],
            vec!["id".to_string()],
            rows(i),
            String::new(),
        );
        store.track_table("t");
        store.dolt_add(&["t"]).unwrap();
        let tip = store.dolt_commit("m", None, false, false).unwrap();
        store.record_snapshot(
            tip,
            "t",
            vec!["id".to_string(), "v".to_string()],
            vec!["id".to_string()],
            store.work_table("t").unwrap().rows.clone(),
            String::new(),
        );
    }
    let tips: Vec<CommitId> = store
        .refs
        .list(RefNs::Heads)
        .into_iter()
        .map(|(_, id)| id)
        .collect();
    let head = tips[0];
    // Build an orphan commit directly in the commit store.
    let orphan = store.commits.put_commit(Commit {
        parents: vec![],
        root: RootHash([0; 20]),
        meta: CommitMeta {
            name: "ghost".into(),
            email: "g@b".into(),
            message: "unreachable".into(),
            timestamp: 99,
        },
    });
    (store, head, orphan)
}

#[test]
fn gc_collect_removes_unreachable_commit() {
    let (mut store, head, orphan) = store_with_history();
    let stats = collect_garbage(&mut store);
    assert!(stats.removed >= 1);
    assert!(store.get_commit(&head).is_some());
    assert!(store.get_commit(&orphan).is_none());
    assert_eq!(
        stats.summary(),
        format!(
            "{} chunks removed, {} chunks kept",
            stats.removed, stats.kept
        )
    );
}

#[test]
fn gc_keeps_tag_tracking_and_detached_roots() {
    let (mut store, head, orphan) = store_with_history();
    store.create_tag("v1", orphan).unwrap();
    store
        .tracking
        .insert(("origin".to_string(), "side".to_string()), orphan);
    collect_garbage(&mut store);
    // Tagged and tracked: still live.
    assert!(store.get_commit(&orphan).is_some());
    store.delete_tag("v1").unwrap();
    store.tracking = AssocMap::new();
    collect_garbage(&mut store);
    assert!(store.get_commit(&orphan).is_none());
    let _ = head;
}

#[test]
fn gc_removes_snapshots_of_dead_commits() {
    let (mut store, head, orphan) = store_with_history();
    let mut tables = AssocMap::new();
    tables.insert(
        "ghost".to_string(),
        TableSnapshot {
            columns: vec!["id".to_string()],
            pk: vec!["id".to_string()],
            rows: vec![],
            schema_sql: String::new(),
        },
    );
    store.record_snapshot(
        orphan,
        "ghost",
        vec!["id".into()],
        vec!["id".into()],
        vec![],
        String::new(),
    );
    let _ = tables;
    collect_garbage(&mut store);
    assert!(store.snapshots.get(&head).is_some());
    assert!(store.snapshots.get(&orphan).is_none());
}

#[test]
fn gc_exclusive_gate_refuses_busy_store() {
    let mut store = VcStore::new("main");
    assert!(gc_exclusive(&store).is_ok());
    store.note_txn_event("BEGIN");
    assert_eq!(
        gc_exclusive(&store).unwrap_err(),
        VersionError::GcRequiresExclusiveAccess
    );
    store.note_txn_event("COMMIT");
    assert!(gc_exclusive(&store).is_ok());
    store.track_table("t");
    assert_eq!(
        gc_exclusive(&store).unwrap_err(),
        VersionError::GcRequiresExclusiveAccess
    );
}

#[test]
fn gc_compact_skips_when_not_quiet() {
    let (mut store, _head, orphan) = store_with_history();
    store.note_txn_event("BEGIN");
    let stats = gc_compact(&mut store);
    assert_eq!(stats.removed, 0);
    assert!(store.get_commit(&orphan).is_some());
    store.note_txn_event("COMMIT");
    let stats = gc_compact(&mut store);
    assert!(stats.removed >= 1);
    assert!(store.get_commit(&orphan).is_none());
}
