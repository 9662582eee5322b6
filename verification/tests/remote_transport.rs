//! Endpoints and transports.

use versioning::commit::{encode_v2, hash_commit, Commit, CommitMeta};
use versioning::model::{CommitId, RootHash, VersionError};
use versioning::remote_transport::{
    open_transport, serve, MemEndpoint, MemHub, MemTransport, RemoteTransport, Request, Response,
};
use versioning::remote_wire::{decode_refs, RemoteRefs, SnapshotId, SourceId, SYNC_BATCH_SIZE};

fn commit_obj(ts: i64, parents: Vec<CommitId>) -> (CommitId, Vec<u8>) {
    let commit = Commit {
        parents,
        root: RootHash([0u8; 20]),
        meta: CommitMeta {
            name: "a".to_string(),
            email: "a@b".to_string(),
            message: "m".to_string(),
            timestamp: ts,
        },
    };
    let id = hash_commit(&commit);
    (id, encode_v2(&commit))
}

fn endpoint_with_main() -> MemEndpoint {
    let mut ep = MemEndpoint::new("main");
    let (id, bytes) = commit_obj(1, vec![]);
    ep.refs.branches.push(("main".to_string(), id));
    ep.objects.insert(SourceId::Commit(id), bytes);
    ep
}

#[test]
fn transport_open_dispatches_schemes() {
    assert!(open_transport("file:///tmp/somewhere").is_ok());
    assert!(open_transport("mem://t-open-1").is_ok());
    assert!(matches!(
        open_transport("http://example.com/db"),
        Err(VersionError::BadRemoteUrl)
    ));
    assert!(matches!(
        open_transport("https://example.com/db"),
        Err(VersionError::BadRemoteUrl)
    ));
    assert!(matches!(
        open_transport("/plain/path"),
        Err(VersionError::BadRemoteUrl)
    ));
}

#[test]
fn transport_serve_roundtrip_refs_and_objects() {
    let mut ep = endpoint_with_main();
    let Response::Refs(blob) = serve(&mut ep, Request::GetRefs, None).unwrap() else {
        panic!("refs response");
    };
    let refs = decode_refs(&blob).unwrap();
    assert_eq!(refs.default_branch, "main");
    assert_eq!(refs.branches.len(), 1);

    let (id, _) = commit_obj(1, vec![]);
    let Response::Presence(present) = serve(
        &mut ep,
        Request::HasMany(vec![
            SourceId::Commit(id),
            SourceId::Commit(CommitId([9; 20])),
        ]),
        None,
    )
    .unwrap() else {
        panic!("presence response");
    };
    assert_eq!(present, vec![true, false]);
}

#[test]
fn transport_serve_update_branch_enforces_fast_forward() {
    let mut ep = endpoint_with_main();
    let (base, base_bytes) = commit_obj(1, vec![]);
    ep.objects.insert(SourceId::Commit(base), base_bytes);
    let (tip, tip_bytes) = commit_obj(2, vec![base]);
    ep.objects.insert(SourceId::Commit(tip), tip_bytes);
    let (side, side_bytes) = commit_obj(3, vec![]);
    ep.objects.insert(SourceId::Commit(side), side_bytes);

    serve(
        &mut ep,
        Request::UpdateBranch {
            branch: "main".to_string(),
            commit: tip,
            force: false,
        },
        None,
    )
    .unwrap();
    assert_eq!(ep.refs.branches[0].1, tip);

    assert_eq!(
        serve(
            &mut ep,
            Request::UpdateBranch {
                branch: "main".to_string(),
                commit: side,
                force: false,
            },
            None,
        )
        .unwrap_err(),
        VersionError::PushNotFastForward
    );
    serve(
        &mut ep,
        Request::UpdateBranch {
            branch: "main".to_string(),
            commit: side,
            force: true,
        },
        None,
    )
    .unwrap();
    assert_eq!(ep.refs.branches[0].1, side);
}

#[test]
fn transport_serve_auth_required_without_credentials() {
    let mut ep = endpoint_with_main();
    ep.auth_required = true;
    assert_eq!(
        serve(&mut ep, Request::GetRefs, None).unwrap_err(),
        VersionError::NoCredentials
    );
    // Serving with an active kid present succeeds; the transport layer
    // supplies it from the cred store.
    let Response::Refs(_) = serve(&mut ep, Request::GetRefs, Some("kid123")).unwrap() else {
        panic!("refs response");
    };
}

#[test]
fn transport_mem_hub_shared_between_handles() {
    let mut hub = MemHub::new();
    let mut a = MemTransport::open(&mut hub, "t-shared-1", false, None);
    let (id, bytes) = commit_obj(1, vec![]);
    a.put_batch(&vec![(SourceId::Commit(id), bytes)], &vec![]).unwrap();
    hub.keep("t-shared-1", a);
    let mut b = MemTransport::open(&mut hub, "t-shared-1", false, None);
    assert_eq!(b.has_many(&vec![SourceId::Commit(id)]).unwrap(), vec![true]);
    let mut c = MemTransport::open(&mut hub, "t-shared-2", false, None);
    assert_eq!(c.has_many(&vec![SourceId::Commit(id)]).unwrap(), vec![false]);
}

#[test]
fn transport_mem_walk_follows_parents_and_snap_lists() {
    let mut t = MemTransport::open(&mut MemHub::new(), "t-walk-1", false, None);
    let (a, a_bytes) = commit_obj(1, vec![]);
    let (b, b_bytes) = commit_obj(2, vec![a]);
    t.put_batch(
        &vec![
            (SourceId::Commit(a), a_bytes),
            (SourceId::Commit(b), b_bytes),
        ],
        &vec![],
    )
    .unwrap();
    t.replace_refs(&RemoteRefs {
        default_branch: "main".to_string(),
        branches: vec![("main".to_string(), b)],
    })
    .unwrap();
    let closure = t.walk(b).unwrap();
    assert!(closure.contains(&SourceId::Commit(a)));
    assert!(closure.contains(&SourceId::Commit(b)));
    let missing = CommitId([0xAB; 20]);
    assert_eq!(
        t.walk(missing).unwrap_err(),
        VersionError::ChunkNotFound(missing.to_hex())
    );
}

#[test]
fn transport_mem_get_batch_missing_object_names_hash() {
    let mut t = MemTransport::open(&mut MemHub::new(), "t-missing-1", false, None);
    let missing = SourceId::Snapshot(SnapshotId([0xCD; 20]));
    assert_eq!(
        t.get_batch(&vec![missing]).unwrap_err(),
        VersionError::ChunkNotFound(missing.to_hex())
    );
}

#[test]
fn transport_batch_size_constant() {
    assert_eq!(SYNC_BATCH_SIZE, 256);
}
