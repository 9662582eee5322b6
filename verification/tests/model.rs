//! Hashes, manifests and messages.

use versioning::model::{
    ChunkHash, CommitHash, CommitId, FileMagic, Manifest, NodeFlags, RootHash, StoreError,
    VersionError, MANIFEST_SIZE,
};

/// Only `ChunkHash` satisfies `Into<ChunkHash>`, so a `CommitHash`
/// argument is refused at compile time — the two hashes stay distinct
/// even though their bytes are interchangeable.
fn requires_chunk<T: Into<ChunkHash>>(t: T) -> ChunkHash {
    t.into()
}

#[test]
fn model_chunk_hash_hex_roundtrip() {
    let h = ChunkHash([0x41; 20]);
    let hex = h.to_hex();
    let h2 = ChunkHash::from_hex(&hex).unwrap();
    assert_eq!(h, h2);
    assert_eq!(h2.as_bytes(), &[0x41; 20]);
}

#[test]
fn model_commit_hash_is_not_chunk_hash() {
    let ch = ChunkHash([0x42; 20]);
    let _: ChunkHash = requires_chunk(ch);
    let c = CommitHash([0x42; 20]);
    assert_eq!(ch.as_bytes(), c.as_bytes());
}

#[test]
fn model_manifest_168_byte_roundtrip() {
    let m = Manifest {
        root: ChunkHash([1; 20]),
        meta: ChunkHash([2; 20]),
        commits: 42,
        working: 7,
    };
    let buf = m.encode();
    assert_eq!(buf.len(), 168);
    let m2 = Manifest::decode(&buf).unwrap();
    assert_eq!(m2.root, m.root);
    assert_eq!(m2.meta, m.meta);
    assert_eq!(m2.commits, m.commits);
    assert_eq!(m2.working, m.working);
}

#[test]
fn model_manifest_rejects_bad_magic() {
    let mut buf = [0u8; MANIFEST_SIZE];
    buf[0..4].copy_from_slice(&0xDEADBEEF_u32.to_be_bytes());
    assert!(Manifest::decode(&buf).is_err());
}

#[test]
fn model_manifest_rejects_bad_version() {
    let mut buf = [0u8; MANIFEST_SIZE];
    buf[0..4].copy_from_slice(&FileMagic::DLTC.to_be_bytes());
    buf[4..6].copy_from_slice(&99_u16.to_be_bytes());
    assert!(Manifest::decode(&buf).is_err());
}

#[test]
fn model_file_magic_consts() {
    assert_eq!(FileMagic::DLTC, 0x444C5443);
    assert_eq!(FileMagic::FORMAT_VERSION, 12);
}

#[test]
fn model_node_flags_contains() {
    let flags = NodeFlags(NodeFlags::INTKEY | NodeFlags::COUNTS);
    assert!(flags.contains(NodeFlags(NodeFlags::INTKEY)));
    assert!(!flags.contains(NodeFlags(NodeFlags::BLOBKEY)));
    assert!(flags.contains(NodeFlags(NodeFlags::COUNTS)));
}

#[test]
fn store_error_display_bad_node_magic() {
    assert_eq!(
        StoreError::BadNodeMagic.to_string(),
        "bad node magic: expected PNOD"
    );
}

#[test]
fn store_error_display_unordered_insert() {
    assert_eq!(
        StoreError::UnorderedInsert.to_string(),
        "unordered insert into prolly builder"
    );
}

#[test]
fn store_error_display_chunk_not_found() {
    let hex = "abcdef0123456789abcdef0123456789abcdef01";
    assert_eq!(
        StoreError::ChunkNotFound(hex.to_string()).to_string(),
        format!("chunk not found: {hex}")
    );
}

#[test]
fn store_error_display_bad_manifest() {
    assert_eq!(StoreError::BadManifest.to_string(), "bad file manifest");
}

#[test]
fn store_error_display_corrupt_wal() {
    assert_eq!(StoreError::CorruptWal.to_string(), "corrupt WAL record");
}

#[test]
fn store_error_display_bad_hash() {
    assert_eq!(
        StoreError::BadHash("zz".to_string()).to_string(),
        "bad hash string: zz"
    );
}

#[test]
fn model_commit_id_hex_roundtrip() {
    let id = CommitId([0xAB; 20]);
    let hex = id.to_hex();
    assert_eq!(id, CommitId::from_hex(&hex).unwrap());
    assert_eq!(id.as_bytes(), &[0xAB; 20]);
}

#[test]
fn model_commit_id_rejects_short_hex() {
    let err = CommitId::from_hex("abcd").unwrap_err();
    assert_eq!(err.to_string(), "commit not found: abcd");
}

#[test]
fn model_root_hash_hex_roundtrip() {
    let root = RootHash([0x0F; 20]);
    let hex = root.to_hex();
    assert_eq!(root, RootHash::from_hex(&hex).unwrap());
    assert_eq!(root.as_bytes(), &[0x0F; 20]);
}

#[test]
fn model_commit_id_is_not_chunk_hash() {
    let id = CommitId([0x42; 20]);
    let ch = ChunkHash([0x42; 20]);
    assert_eq!(id.as_bytes(), ch.as_bytes());
    assert_eq!(id.to_hex(), ch.to_hex());
}

#[test]
fn version_error_displays_are_exact() {
    assert_eq!(
        VersionError::Conflicts.to_string(),
        "cannot commit: unresolved merge conflicts"
    );
    assert_eq!(
        VersionError::Violations.to_string(),
        "cannot commit: constraint violations remain"
    );
    assert_eq!(
        VersionError::NothingToCommit.to_string(),
        "nothing to commit"
    );
    assert_eq!(
        VersionError::BranchAlreadyExists("main".into()).to_string(),
        "branch 'main' already exists"
    );
    assert_eq!(
        VersionError::BranchNotFound("dev".into()).to_string(),
        "branch not found: dev"
    );
    assert_eq!(
        VersionError::TagNotFound("v1".into()).to_string(),
        "tag not found: v1"
    );
    assert_eq!(
        VersionError::CommitNotFound("abc123".into()).to_string(),
        "commit not found: abc123"
    );
    assert_eq!(
        VersionError::InvalidRevisionSpec("HEAD~x".into()).to_string(),
        "invalid revision spec: 'HEAD~x'"
    );
    assert_eq!(
        VersionError::InvalidAuthor.to_string(),
        "invalid author: user.name and user.email must be set"
    );
    assert_eq!(
        VersionError::DetachedHeadWrite.to_string(),
        "cannot write in detached HEAD state"
    );
    assert_eq!(
        VersionError::TableNotFound("t1".into()).to_string(),
        "table not found: t1"
    );
    assert_eq!(
        VersionError::DatabaseLocked.to_string(),
        "database is locked"
    );
    assert_eq!(
        VersionError::IncorrectArity("dolt_add".into()).to_string(),
        "incorrect number of arguments to dolt_add"
    );
    assert_eq!(
        VersionError::InvalidCommitEncoding.to_string(),
        "invalid commit encoding"
    );
    assert_eq!(
        VersionError::CommitGraphCycle("abcd".into()).to_string(),
        "commit graph contains a cycle at abcd"
    );
    assert_eq!(
        VersionError::AtRefRequired("t".into()).to_string(),
        "ref required: dolt_at_t needs a revision argument"
    );
    assert_eq!(
        VersionError::SchemaConflict("t".into(), "breaking".into()).to_string(),
        "schema conflict in table: t (breaking)"
    );
    assert_eq!(
        VersionError::InvalidResolveSide("--mine".into()).to_string(),
        "invalid resolve side: '--mine' (want '--ours' or '--theirs')"
    );
    assert_eq!(
        VersionError::CherryPickMergeNeedsParent(2).to_string(),
        "cherry-pick of merge commit needs -m PARENT (got 2 parents)"
    );
    assert_eq!(
        VersionError::RebaseConflict("abc".into()).to_string(),
        "rebase conflict at abc: resolve and --continue"
    );
    assert_eq!(
        VersionError::NoRebaseInProgress.to_string(),
        "no rebase in progress"
    );
    assert_eq!(
        VersionError::NoMergeInProgress.to_string(),
        "no merge in progress"
    );
    assert_eq!(
        VersionError::MergeInProgress.to_string(),
        "merge already in progress"
    );
    assert_eq!(
        VersionError::RebaseInProgress.to_string(),
        "rebase already in progress"
    );
    assert_eq!(
        VersionError::InvalidSchema("t".into()).to_string(),
        "invalid schema for table: t"
    );
    assert_eq!(
        VersionError::NoConflict("t".into()).to_string(),
        "no conflict found for table 't'"
    );
    assert_eq!(
        VersionError::WorkWrite("boom".into()).to_string(),
        "failed to write working set to SQL: boom"
    );
}
