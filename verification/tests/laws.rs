//! What holds of the library as a whole, on concrete values.

use versioning::checks::eval_check;
use versioning::chunk::{ProllyNode, WeibullChunker};
use versioning::commit::{encode_v2, hash_commit, merge_base, Commit, CommitMeta, CommitStore};
use versioning::conflicts::ResolveSide;
use versioning::func_args::{FuncArg, FuncValue};
use versioning::funcs::{dolt_hashof_db, dolt_hashof_table, dolt_merge_base};
use versioning::gc::collect_garbage;
use versioning::merge::three_way_row_merge;
use versioning::merge_schema::{merge_schema, parse_schema, SchemaDecision};
use versioning::model::{ChunkHash, CommitId, Manifest, NodeFlags, RootHash, VersionError};
use versioning::orm::{OrmError, VersionedDb, VersionedRow};
use versioning::refs::{RefName, RefStore};
use versioning::remote_files::{read_snaps, seal_refs, tip_to_keep, unseal_refs, write_snaps};
use versioning::remote_transport::{
    branch_tip, move_branch, MemHub, MemTransport, RemoteTransport, RemoteUrl,
};
use versioning::remote_transport::open_transport;
use versioning::remote_wire::{
    decode_snapshot_record, encode_snapshot, encode_snapshot_record, snapshot_id, RemoteRefs,
    SnapshotId, SourceId,
};
use versioning::replay::MergeResult;
use versioning::replay_state::RebaseStep;
use versioning::staging::{TableSnapshot, VcStore};
use versioning::values::{VcRow, VcValue};
use versioning::walk::Walk;

fn row(id: i64, v: &str) -> VcRow {
    VcRow::new(vec![VcValue::Integer(id), VcValue::Text(v.to_string())])
}

fn set_rows(s: &mut VcStore, rows: Vec<VcRow>) {
    s.apply_work(
        "t",
        vec!["id".to_string(), "v".to_string()],
        vec!["id".to_string()],
        rows,
        String::new(),
    );
}

fn commit_rows(s: &mut VcStore, rows: Vec<VcRow>, msg: &str) -> CommitId {
    set_rows(s, rows);
    s.track_table("t");
    s.dolt_add(&["t"]).unwrap();
    s.dolt_commit(msg, None, false, false).unwrap()
}

fn store() -> VcStore {
    let mut s = VcStore::new("main");
    s.config_set("user.name", "Ada");
    s.config_set("user.email", "ada@example.com");
    s
}

/// A repository on `feature`; its row differs from that of `main`.
fn diverged() -> VcStore {
    let mut s = store();
    commit_rows(&mut s, vec![row(1, "base")], "seed");
    s.create_branch("feature").unwrap();
    commit_rows(&mut s, vec![row(1, "ours")], "main work");
    s.checkout("feature").unwrap();
    commit_rows(&mut s, vec![row(1, "theirs")], "feature work");
    s
}

fn snapshot(rows: Vec<VcRow>) -> TableSnapshot {
    TableSnapshot {
        columns: vec!["id".to_string(), "v".to_string()],
        pk: vec!["id".to_string()],
        rows,
        schema_sql: String::new(),
    }
}

#[test]
fn chunks_join_to_what_was_pushed() {
    let payload: Vec<u8> = (0..50_000u32)
        .map(|i| (i.wrapping_mul(2654435761) >> 16) as u8)
        .collect();
    let mut chunker = WeibullChunker::with_level(9);
    chunker.push(&payload);
    let joined: Vec<u8> = chunker.finish().into_iter().flat_map(|c| c.data).collect();
    assert_eq!(joined, payload);
}

#[test]
fn a_node_reads_back_and_is_written_alike() {
    let node = ProllyNode {
        flags: NodeFlags(1),
        counts: [3, 4],
        items: vec![(vec![1, 2], vec![]), (vec![], vec![9])],
    };
    let bytes = node.encode();
    assert_eq!(&bytes[0..4], &[0x50, 0x4E, 0x4F, 0x44]);
    let back = ProllyNode::decode(&bytes).unwrap();
    assert_eq!(back.items, node.items);
    assert_eq!(back.encode(), bytes);
}

#[test]
fn different_commits_have_different_bytes() {
    let commit = |msg: &str| Commit {
        parents: vec![CommitId([7; 20])],
        root: RootHash([0; 20]),
        meta: CommitMeta {
            name: "n".to_string(),
            email: "e".to_string(),
            message: msg.to_string(),
            timestamp: -5,
        },
    };
    assert_ne!(encode_v2(&commit("a")), encode_v2(&commit("b")));
    assert_ne!(hash_commit(&commit("a")), hash_commit(&commit("b")));
}

#[test]
fn a_commit_is_its_own_merge_base() {
    let mut s = store();
    let id = commit_rows(&mut s, vec![row(1, "a")], "seed");
    assert_eq!(merge_base(&s.commits, id, id).unwrap(), Some(id));
}

#[test]
fn different_manifests_have_different_bytes() {
    let m = |working: u32| Manifest {
        root: ChunkHash([1; 20]),
        meta: ChunkHash([2; 20]),
        commits: 3,
        working,
    };
    assert_ne!(m(1).encode(), m(2).encode());
}

#[test]
fn like_and_three_values() {
    let cols = vec!["v".to_string()];
    let text = VcRow::new(vec![VcValue::Text("a_c".to_string())]);
    assert_eq!(eval_check("v LIKE 'a_c'", &text, &cols), Ok(Some(true)));
    assert_eq!(eval_check("v LIKE '%'", &text, &cols), Ok(Some(true)));
    let null = VcRow::new(vec![VcValue::Null]);
    assert_eq!(eval_check("v = 1 OR 1 = 1", &null, &cols), Ok(Some(true)));
    assert_eq!(eval_check("v = 1 AND 1 = 2", &null, &cols), Ok(Some(false)));
    assert_eq!(eval_check("NOT v = 1", &null, &cols), Ok(None));
}

#[test]
fn a_merge_is_the_same_from_both_sides() {
    let pk = vec!["id".to_string()];
    let cols = vec!["id".to_string(), "v".to_string()];
    let base = vec![row(1, "a"), row(2, "b")];
    let one = vec![row(1, "x"), row(2, "b")];
    let other = vec![row(1, "a"), row(2, "b"), row(3, "c")];
    let left = three_way_row_merge(&base, &one, &other, &pk, &cols);
    let right = three_way_row_merge(&base, &other, &one, &pk, &cols);
    assert_eq!(left.rows, right.rows);
    assert!(left.conflicts.is_empty() && right.conflicts.is_empty());
}

#[test]
fn a_schema_union_keeps_the_base_and_has_the_additions() {
    let base = parse_schema("CREATE TABLE t (id INTEGER PRIMARY KEY)").unwrap();
    let ours = parse_schema("CREATE TABLE t (id INTEGER PRIMARY KEY, a TEXT)").unwrap();
    let theirs = parse_schema("CREATE TABLE t (id INTEGER PRIMARY KEY, b TEXT)").unwrap();
    match merge_schema(Some(&base), Some(&ours), Some(&theirs)) {
        SchemaDecision::Clean(m) => {
            let names: Vec<&str> = m.columns.iter().map(|c| c.name.as_str()).collect();
            assert_eq!(names, vec!["id", "a", "b"]);
        }
        SchemaDecision::Conflict(d) => panic!("{d}"),
    }
    assert_eq!(
        merge_schema(Some(&base), Some(&base), Some(&base)),
        SchemaDecision::Clean(base.clone())
    );
}

#[test]
fn the_order_of_rows_does_not_change_a_table_hash() {
    let mut a = store();
    let mut b = store();
    set_rows(&mut a, vec![row(1, "x"), row(2, "y")]);
    set_rows(&mut b, vec![row(2, "y"), row(1, "x")]);
    a.track_table("t");
    b.track_table("t");
    let args = [FuncArg::Text("t")];
    assert_eq!(
        dolt_hashof_table(&a, &args).unwrap(),
        dolt_hashof_table(&b, &args).unwrap()
    );
    assert_eq!(
        dolt_hashof_db(&a, &[]).unwrap(),
        dolt_hashof_db(&b, &[]).unwrap()
    );
    assert_eq!(
        encode_snapshot(&snapshot(vec![row(1, "x"), row(2, "y")])),
        encode_snapshot(&snapshot(vec![row(2, "y"), row(1, "x")]))
    );
    assert_ne!(
        snapshot_id(&snapshot(vec![row(1, "x")])),
        snapshot_id(&snapshot(vec![row(1, "z")]))
    );
}

#[test]
fn a_second_collection_finds_nothing() {
    let mut s = store();
    let head = commit_rows(&mut s, vec![row(1, "a")], "seed");
    s.commits.put_commit(Commit {
        parents: vec![],
        root: RootHash([0; 20]),
        meta: CommitMeta {
            name: "x".to_string(),
            email: "x".to_string(),
            message: "lost".to_string(),
            timestamp: 1,
        },
    });
    assert!(collect_garbage(&mut s).removed > 0);
    assert_eq!(collect_garbage(&mut s).removed, 0);
    assert!(s.get_commit(&head).is_some());
}

#[test]
fn a_chosen_row_is_in_place() {
    let mut s = diverged();
    s.checkout("main").unwrap();
    s.merge_branch("feature", false, false, None).unwrap();
    let pk = s.conflict_entries()[0].pk.clone();
    s.resolve_conflict("t", &pk, ResolveSide::Theirs).unwrap();
    assert_eq!(s.work_table("t").unwrap().rows, vec![row(1, "theirs")]);
}

#[test]
fn a_merge_moves_one_branch() {
    let mut s = diverged();
    let feature = s.head_commit().unwrap();
    s.checkout("main").unwrap();
    s.merge_branch("feature", false, false, None).unwrap();
    let pk = s.conflict_entries()[0].pk.clone();
    s.resolve_conflict("t", &pk, ResolveSide::Ours).unwrap();
    s.dolt_commit("merged", None, false, false).unwrap();
    assert_eq!(s.refs.get(&RefName::branch("feature")), Some(feature));
}

#[test]
fn an_unresolved_rebase_waits() {
    let mut s = diverged();
    let head = s.head_commit().unwrap();
    let main = s.refs.get(&RefName::branch("main"));
    assert!(s.rebase_onto("main").is_err());
    assert!(s.rebase_continue().is_err());
    assert!(s.rebase_state.is_some());
    assert_eq!(s.head_commit(), Some(head));
    assert_eq!(s.refs.get(&RefName::branch("main")), main);
}

#[test]
fn dropped_steps_leave_the_new_base() {
    let mut s = diverged();
    let main = s.refs.get(&RefName::branch("main")).unwrap();
    let head = s.head_commit().unwrap();
    assert_eq!(s.rebase_plan("main").unwrap(), 1);
    s.rebase_edit_plan(vec![RebaseStep::Drop(head)]).unwrap();
    assert_eq!(s.rebase_continue().unwrap(), main);
    assert_eq!(s.head_commit(), Some(main));
}

#[test]
fn reverting_the_first_commit_empties_its_tables() {
    let mut s = store();
    let first = commit_rows(&mut s, vec![row(1, "a"), row(2, "b")], "seed");
    match s.revert(&first.to_hex(), None).unwrap() {
        MergeResult::Committed(id) => {
            assert_eq!(s.table_rows("t", &id), Some(vec![]));
        }
        other => panic!("{other:?}"),
    }
    assert!(s.work_table("t").unwrap().rows.is_empty());
}

#[test]
fn a_detached_head_is_read_only() {
    let mut s = store();
    let id = commit_rows(&mut s, vec![row(1, "a")], "seed");
    s.open_detached(id);
    for e in [
        s.create_branch("x").unwrap_err(),
        s.dolt_add(&["t"]).unwrap_err(),
        s.dolt_commit("m", None, false, true).unwrap_err(),
        s.reset_hard().unwrap_err(),
    ] {
        assert_eq!(e.to_string(), "cannot write in detached HEAD state");
    }
}

#[test]
fn a_commit_moves_its_branch_alone() {
    let mut s = store();
    let first = commit_rows(&mut s, vec![row(1, "a")], "seed");
    s.create_branch("other").unwrap();
    let second = commit_rows(&mut s, vec![row(1, "b")], "more");
    assert_eq!(s.refs.get(&RefName::branch("other")), Some(first));
    assert_eq!(s.refs.get(&RefName::branch("main")), Some(second));
}

#[test]
fn sealed_refs_open_only_unchanged() {
    let raw = seal_refs(b"table");
    assert_eq!(raw.len(), 25);
    assert_eq!(unseal_refs(&raw), Ok(b"table".to_vec()));
    let mut bad = raw.clone();
    bad[0] ^= 1;
    assert_eq!(
        unseal_refs(&bad).unwrap_err().to_string(),
        "failed to read remote refs"
    );
    assert!(unseal_refs(&raw[..19]).is_err());
}

#[test]
fn snapshot_lists_read_back() {
    let snaps = vec![SnapshotId([0xAB; 20]), SnapshotId([1; 20])];
    let text = write_snaps(&snaps);
    assert_eq!(text.lines().count(), 2);
    assert_eq!(read_snaps(&text), snaps);
    assert!(read_snaps("zz\n\nabcd").is_empty());
}

#[test]
fn a_branch_table_moves_one_branch() {
    let mut refs = RemoteRefs {
        default_branch: "main".to_string(),
        branches: vec![("main".to_string(), CommitId([1; 20]))],
    };
    assert_eq!(
        tip_to_keep(&refs, "main", CommitId([2; 20]), false),
        Some(CommitId([1; 20]))
    );
    assert_eq!(tip_to_keep(&refs, "main", CommitId([2; 20]), true), None);
    assert_eq!(tip_to_keep(&refs, "main", CommitId([1; 20]), false), None);
    assert_eq!(tip_to_keep(&refs, "new", CommitId([2; 20]), false), None);
    move_branch(&mut refs, "new", CommitId([2; 20]));
    assert_eq!(branch_tip(&refs, "main"), Some(CommitId([1; 20])));
    assert_eq!(branch_tip(&refs, "new"), Some(CommitId([2; 20])));
}

#[test]
fn put_objects_can_be_read() {
    let mut t = MemTransport::open(&mut MemHub::new(), "x", false, None);
    let id = SourceId::Snapshot(SnapshotId([3; 20]));
    t.put_batch(&vec![(id, vec![1, 2, 3])], &vec![]).unwrap();
    assert_eq!(
        t.get_batch(&vec![id]).unwrap(),
        vec![(id, vec![1, 2, 3])]
    );
}

#[test]
fn urls_lead_to_transports() {
    assert_eq!(
        open_transport("mem://a?auth=required"),
        Ok(RemoteUrl::Mem {
            name: "a".to_string(),
            auth_required: true
        })
    );
    assert_eq!(
        open_transport("file:///tmp/x"),
        Ok(RemoteUrl::File("/tmp/x".to_string()))
    );
    assert!(open_transport("mem://").is_err());
}

#[test]
fn records_with_reals_or_blobs_are_not_read() {
    let owner = CommitId([9; 20]);
    let of = |v: VcValue| snapshot(vec![VcRow::new(vec![VcValue::Integer(1), v])]);
    for v in [VcValue::Real(2.5f64.to_bits()), VcValue::Blob(vec![0, 255])] {
        let (_, bytes) = encode_snapshot_record(&owner, "t", &of(v));
        assert_eq!(
            decode_snapshot_record(&bytes).unwrap_err(),
            VersionError::InvalidSnapshotEncoding
        );
    }
    assert_ne!(
        snapshot_id(&of(VcValue::Real(1))),
        snapshot_id(&of(VcValue::Real(2)))
    );
    for v in [VcValue::Null, VcValue::Text("x".to_string())] {
        let snap = of(v);
        let (_, bytes) = encode_snapshot_record(&owner, "t", &snap);
        let (o, table, back) = decode_snapshot_record(&bytes).unwrap();
        assert_eq!((o, table.as_str()), (owner, "t"));
        assert_eq!(back, snap);
    }
}

#[test]
fn a_walk_sees_each_commit_once() {
    let a = CommitId([1; 20]);
    let b = CommitId([2; 20]);
    let mut walk = Walk::from_tip(b);
    assert_eq!(walk.next(), Some(b));
    walk.follow(&vec![a, a, b]);
    assert_eq!(walk.next(), Some(a));
    assert_eq!(walk.next(), None);
}

#[derive(Debug, Clone, PartialEq, Eq)]
struct Note {
    id: i64,
    text: String,
}

impl VersionedRow for Note {
    type Model = ();

    fn table() -> &'static str {
        "notes"
    }

    fn columns() -> Vec<String> {
        vec!["id".to_string(), "text".to_string()]
    }

    fn pk() -> Vec<String> {
        vec!["id".to_string()]
    }

    fn into_row(&self) -> VcRow {
        row(self.id, &self.text)
    }

    fn from_row(r: &VcRow) -> Result<Self, OrmError> {
        match (&r.values[0], &r.values[1]) {
            (VcValue::Integer(id), VcValue::Text(text)) => Ok(Note {
                id: *id,
                text: text.clone(),
            }),
            _ => Err(OrmError::Decode("cells".to_string())),
        }
    }
}

fn note(id: i64, text: &str) -> Note {
    Note {
        id,
        text: text.to_string(),
    }
}

#[test]
fn typed_rows_are_read_back_by_key() {
    let mut db = VersionedDb::new("main").unwrap();
    let mut notes = db.table::<Note>();
    notes.insert(&note(1, "a")).unwrap();
    notes.insert(&note(2, "b")).unwrap();
    notes.insert(&note(1, "c")).unwrap();
    assert_eq!(notes.len(), 2);
    assert_eq!(notes.get(&vec![VcValue::Integer(1)]), Some(note(1, "c")));
    assert_eq!(notes.get(&vec![VcValue::Integer(2)]), Some(note(2, "b")));
    assert!(notes.delete(&vec![VcValue::Integer(1)]));
    assert_eq!(notes.get(&vec![VcValue::Integer(1)]), None);
    assert_eq!(
        db.store().work_table("notes").unwrap().schema_sql,
        "CREATE TABLE notes (id, text)"
    );
}

#[test]
fn asking_changes_nothing() {
    let mut s = store();
    let head = commit_rows(&mut s, vec![row(1, "a")], "seed");
    assert!(dolt_merge_base(&s, &[FuncArg::Text("main")]).is_err());
    assert_eq!(
        dolt_merge_base(&s, &[FuncArg::Text("main"), FuncArg::Text("main")]).unwrap(),
        FuncValue::Text(head.to_hex())
    );
    assert_eq!(s.head_commit(), Some(head));
}

#[test]
fn a_commit_reads_back_what_was_staged() {
    let mut s = store();
    let first = commit_rows(&mut s, vec![row(1, "a")], "seed");
    set_rows(&mut s, vec![row(1, "b"), row(2, "c")]);
    s.track_table("t");
    s.dolt_add(&["t"]).unwrap();
    let second = s.dolt_commit("more", None, false, false).unwrap();
    assert_eq!(s.table_rows("t", &second), Some(vec![row(1, "b"), row(2, "c")]));
    assert_eq!(s.table_rows("t", &first), Some(vec![row(1, "a")]));
}

#[test]
fn reverting_the_head_restores_its_parent() {
    let mut s = store();
    commit_rows(&mut s, vec![row(1, "a")], "seed");
    commit_rows(&mut s, vec![row(1, "b")], "change");
    match s.revert("HEAD", None).unwrap() {
        MergeResult::Committed(id) => {
            assert_eq!(s.table_rows("t", &id), Some(vec![row(1, "a")]));
        }
        other => panic!("{other:?}"),
    }
}

#[test]
fn a_merge_takes_the_side_that_moved() {
    let mut s = store();
    commit_rows(&mut s, vec![row(1, "a")], "seed");
    s.create_branch("feature").unwrap();
    s.checkout("feature").unwrap();
    commit_rows(&mut s, vec![row(1, "b"), row(2, "c")], "feature work");
    s.checkout("main").unwrap();
    match s.merge_branch("feature", false, false, None).unwrap() {
        MergeResult::Committed(id) => {
            assert_eq!(s.table_rows("t", &id), Some(vec![row(1, "b"), row(2, "c")]));
        }
        other => panic!("{other:?}"),
    }
}

#[test]
fn aborting_a_planned_rebase_gives_back_the_branch() {
    let mut s = diverged();
    let head = s.head_commit();
    assert_eq!(s.rebase_plan("main").unwrap(), 1);
    s.rebase_abort().unwrap();
    assert_eq!(s.head_commit(), head);
    assert!(s.rebase_state.is_none());
    assert_eq!(s.work_table("t").unwrap().rows, vec![row(1, "theirs")]);
}

#[test]
fn what_is_pushed_can_be_fetched_and_cloned() {
    let mut hub = MemHub::new();
    let mut t = MemTransport::open(&mut hub, "x", false, None);
    let mut a = store();
    let id = commit_rows(&mut a, vec![row(2, "b"), row(1, "a")], "seed");
    a.remote_add("origin", "mem://x").unwrap();
    a.push(&mut t, "origin", "main", false).unwrap();

    let mut b = VcStore::new("main");
    b.remote_add("up", "mem://x").unwrap();
    b.fetch(&mut t, "up", "main").unwrap();
    assert_eq!(b.get_commit(&id), a.get_commit(&id));
    assert_eq!(b.table_rows("t", &id), Some(vec![row(1, "a"), row(2, "b")]));

    let mut c = VcStore::new("other");
    c.clone_remote(&mut t, "mem://x", false).unwrap();
    assert_eq!(c.refs.get(&RefName::branch("main")), Some(id));
    assert_eq!(c.table_rows("t", &id), Some(vec![row(1, "a"), row(2, "b")]));
}

#[test]
fn a_failed_push_moves_no_branch() {
    let mut hub = MemHub::new();
    let mut t = MemTransport::open(&mut hub, "x", false, None);
    let mut a = store();
    let id = commit_rows(&mut a, vec![row(1, "a")], "seed");
    a.remote_add("origin", "mem://x").unwrap();
    a.push(&mut t, "origin", "main", false).unwrap();
    let mut b = store();
    commit_rows(&mut b, vec![row(1, "z")], "other");
    b.remote_add("origin", "mem://x").unwrap();
    assert!(b.push(&mut t, "origin", "main", false).is_err());
    assert_eq!(t.find_branch("main").unwrap(), Some(id));
}

#[test]
fn network_schemes_lead_nowhere() {
    for url in ["http://host/x", "https://host/x", "ssh://host/x", "x"] {
        assert_eq!(
            open_transport(url),
            Err(VersionError::BadRemoteUrl)
        );
    }
}
