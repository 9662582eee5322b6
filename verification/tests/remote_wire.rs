//! The forms of objects on the wire.

use versioning::commit::{encode_v2, hash_commit, Commit, CommitMeta, CommitStore, MemCommitStore};
use versioning::model::{CommitId, RootHash, VersionError};
use versioning::remote_wire::{
    decode_refs, decode_snapshot_record, encode_refs, encode_snapshot_record, store_object,
    verify_object, RemoteRefs, Snapshots, SourceId, SYNC_BATCH_SIZE,
};
use versioning::staging::TableSnapshot;
use versioning::values::{VcRow, VcValue};

fn snap(columns: &[&str], pk: &[&str], rows: Vec<Vec<VcValue>>) -> TableSnapshot {
    TableSnapshot {
        columns: columns.iter().map(|s| s.to_string()).collect(),
        pk: pk.iter().map(|s| s.to_string()).collect(),
        rows: rows.into_iter().map(|values| VcRow::new(values)).collect(),
        schema_sql: format!(
            "CREATE TABLE t ({})",
            columns
                .iter()
                .map(|c| format!("{c} TEXT"))
                .collect::<Vec<_>>()
                .join(", ")
        ),
    }
}

fn row(int: i64, text: &str) -> Vec<VcValue> {
    vec![VcValue::Integer(int), VcValue::Text(text.to_string())]
}

#[test]
fn wire_snapshot_record_roundtrip() {
    let owner = CommitId([0x11; 20]);
    let s = snap(&["id", "v"], &["id"], vec![row(1, "a"), row(2, "b")]);
    let (id, bytes) = encode_snapshot_record(&owner, "t", &s);
    let (got_owner, got_table, got_snap) = decode_snapshot_record(&bytes).unwrap();
    assert_eq!(got_owner, owner);
    assert_eq!(got_table, "t");
    assert_eq!(got_snap, s);
    // The id is over the full record, so a different owner differs.
    let (other, _) = encode_snapshot_record(&CommitId([0x22; 20]), "t", &s);
    assert_ne!(id, other);
}

#[test]
fn wire_snapshot_rows_sorted_by_pk() {
    let owner = CommitId([0x33; 20]);
    let mut a = snap(&["id", "v"], &["id"], vec![row(2, "b"), row(1, "a")]);
    let b = snap(&["id", "v"], &["id"], vec![row(1, "a"), row(2, "b")]);
    let (id_a, bytes_a) = encode_snapshot_record(&owner, "t", &a);
    let (id_b, bytes_b) = encode_snapshot_record(&owner, "t", &b);
    assert_eq!(id_a, id_b);
    assert_eq!(bytes_a, bytes_b);
    // Canonical order shows in the decoded rows.
    let (_, _, got) = decode_snapshot_record(&bytes_a).unwrap();
    assert_eq!(got.rows[0].values[0], VcValue::Integer(1));
    a.rows.clear();
    let (id_empty, _) = encode_snapshot_record(&owner, "t", &a);
    assert_ne!(id_empty, id_a);
}

#[test]
fn wire_no_pk_rows_keep_capture_order() {
    let owner = CommitId([0x44; 20]);
    let a = snap(&["a", "b"], &[], vec![row(2, "x"), row(1, "y")]);
    let b = snap(&["a", "b"], &[], vec![row(1, "y"), row(2, "x")]);
    let (id_a, _) = encode_snapshot_record(&owner, "t", &a);
    let (id_b, _) = encode_snapshot_record(&owner, "t", &b);
    // Without a pk there is no canonical order: byte order is capture order.
    assert_ne!(id_a, id_b);
}

#[test]
fn wire_snapshot_record_rejects_truncation() {
    let owner = CommitId([0x55; 20]);
    let s = snap(&["id"], &["id"], vec![row(1, "a")]);
    let (_, bytes) = encode_snapshot_record(&owner, "t", &s);
    for cut in [0usize, 4, 10, bytes.len() - 1] {
        assert!(decode_snapshot_record(&bytes[..cut]).is_err());
    }
}

#[test]
fn wire_refs_roundtrip_and_sorted() {
    let refs = RemoteRefs {
        default_branch: "main".to_string(),
        branches: vec![
            ("feature".to_string(), CommitId([0x02; 20])),
            ("main".to_string(), CommitId([0x01; 20])),
        ],
    };
    let bytes = encode_refs(&refs);
    let got = decode_refs(&bytes).unwrap();
    assert_eq!(got, refs);
    // Encoding sorts branches so identical ref sets encode identically.
    let mut shuffled = refs.clone();
    shuffled.branches.reverse();
    assert_eq!(encode_refs(&shuffled), bytes);
}

#[test]
fn wire_refs_rejects_corruption() {
    let refs = RemoteRefs {
        default_branch: "main".to_string(),
        branches: vec![("main".to_string(), CommitId([0x01; 20]))],
    };
    let bytes = encode_refs(&refs);
    assert!(decode_refs(&[]).is_err());
    assert!(decode_refs(&bytes[..bytes.len() - 1]).is_err());
    // A corrupted length prefix pushes the cursor past the blob.
    let mut bad = bytes.clone();
    bad[1] = 0xFF;
    bad[2] = 0xFF;
    assert!(decode_refs(&bad).is_err());
    let mut ver = bytes.clone();
    ver[0] = 9;
    assert!(decode_refs(&ver).is_err());
}

#[test]
fn wire_verify_object_accepts_commit_and_snapshot() {
    let commit = Commit {
        parents: vec![],
        root: RootHash([0u8; 20]),
        meta: CommitMeta {
            name: "a".to_string(),
            email: "a@b".to_string(),
            message: "m".to_string(),
            timestamp: 7,
        },
    };
    let id = hash_commit(&commit);
    let bytes = encode_v2(&commit);
    verify_object(&SourceId::Commit(id), &bytes).unwrap();
    let mut tampered = bytes.clone();
    tampered[3] ^= 0xFF;
    assert_eq!(
        verify_object(&SourceId::Commit(id), &tampered).unwrap_err(),
        VersionError::ChunkVerificationFailed(id.to_hex())
    );

    let owner = CommitId([0x66; 20]);
    let s = snap(&["id"], &["id"], vec![row(1, "a")]);
    let (sid, sbytes) = encode_snapshot_record(&owner, "t", &s);
    verify_object(&SourceId::Snapshot(sid), &sbytes).unwrap();
    let mut bad = sbytes.clone();
    let last = bad.len() - 1;
    bad[last] ^= 0xFF;
    assert_eq!(
        verify_object(&SourceId::Snapshot(sid), &bad).unwrap_err(),
        VersionError::ChunkVerificationFailed(sid.to_hex())
    );
}

#[test]
fn wire_store_object_places_commits_and_snapshots() {
    let mut commits = MemCommitStore::new();
    let mut snapshots: Snapshots = Snapshots::new();
    let commit = Commit {
        parents: vec![],
        root: RootHash([0u8; 20]),
        meta: CommitMeta {
            name: "a".to_string(),
            email: "a@b".to_string(),
            message: "m".to_string(),
            timestamp: 7,
        },
    };
    let cid = commits.put_commit(commit.clone());
    assert_eq!(
        store_object(
            &mut commits,
            &mut snapshots,
            &SourceId::Commit(cid),
            &encode_v2(&commit)
        )
        .unwrap(),
        ()
    );

    let owner = CommitId([0x77; 20]);
    let s = snap(&["id"], &["id"], vec![row(1, "a")]);
    let (sid, sbytes) = encode_snapshot_record(&owner, "t", &s);
    store_object(
        &mut commits,
        &mut snapshots,
        &SourceId::Snapshot(sid),
        &sbytes,
    )
    .unwrap();
    let stored = snapshots.get(&owner).unwrap().get(&"t".to_string());
    assert!(*stored.unwrap() == s);
}

#[test]
fn wire_batch_size_matches_doltlite() {
    assert_eq!(SYNC_BATCH_SIZE, 256);
}
