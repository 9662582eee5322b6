//! Commits and their graph.

use versioning::commit::{
    ancestors, decode_v2, encode_v2, hash_commit, is_ancestor, merge_base, Commit, CommitMeta,
    CommitStore, MemCommitStore,
};
use versioning::model::{CommitId, RootHash};

fn make_commit(parents: Vec<CommitId>, msg: &str) -> Commit {
    Commit {
        parents,
        root: RootHash([0u8; 20]),
        meta: CommitMeta {
            name: "test".into(),
            email: "test@test.com".into(),
            message: msg.into(),
            timestamp: 1000,
        },
    }
}

#[test]
fn v2_codec_roundtrip() {
    let commit = make_commit(vec![], "initial");
    let encoded = encode_v2(&commit);
    let decoded = decode_v2(&encoded).unwrap();
    assert_eq!(commit, decoded);
}

#[test]
fn v2_codec_corrupt() {
    assert!(decode_v2(&[1u8]).is_err()); // wrong version
    assert!(decode_v2(&[2u8, 0u8]).is_err()); // truncated
    assert!(decode_v2(&[]).is_err()); // empty
}

#[test]
fn hash_deterministic() {
    let commit = make_commit(vec![], "test");
    let h1 = hash_commit(&commit);
    let h2 = hash_commit(&commit);
    assert_eq!(h1, h2);
}

#[test]
fn ancestor_chain() {
    let mut store = MemCommitStore::new();

    let c0 = make_commit(vec![], "c0");
    let id0 = store.put_commit(c0);

    let c1 = make_commit(vec![id0], "c1");
    let id1 = store.put_commit(c1);

    let c2 = make_commit(vec![id1], "c2");
    let id2 = store.put_commit(c2);

    let chain = ancestors(&store, id2).unwrap();
    assert_eq!(chain, vec![id2, id1, id0]);
}

#[test]
fn is_ancestor_check() {
    let mut store = MemCommitStore::new();

    let c0 = make_commit(vec![], "c0");
    let id0 = store.put_commit(c0);

    let c1 = make_commit(vec![id0], "c1");
    let id1 = store.put_commit(c1);

    assert!(is_ancestor(&store, id0, id1).unwrap());
    assert!(!is_ancestor(&store, id1, id0).unwrap());
}

#[test]
fn merge_base_diamond() {
    //     c0
    //    / \
    //   c1  c2
    //    \ /
    //     c3
    let mut store = MemCommitStore::new();

    let c0 = make_commit(vec![], "c0");
    let id0 = store.put_commit(c0);

    let c1 = make_commit(vec![id0], "c1");
    let id1 = store.put_commit(c1);

    let c2 = make_commit(vec![id0], "c2");
    let id2 = store.put_commit(c2);

    let c3 = make_commit(vec![id1, id2], "c3");
    let id3 = store.put_commit(c3);

    let base = merge_base(&store, id1, id2).unwrap();
    assert_eq!(base, Some(id0));

    let base = merge_base(&store, id1, id3).unwrap();
    assert_eq!(base, Some(id1));
}

#[test]
fn merge_base_unrelated() {
    let mut store = MemCommitStore::new();

    let c0 = make_commit(vec![], "c0");
    let id0 = store.put_commit(c0);

    let c1 = make_commit(vec![], "c1");
    let id1 = store.put_commit(c1);

    let base = merge_base(&store, id0, id1).unwrap();
    assert_eq!(base, None);
}
