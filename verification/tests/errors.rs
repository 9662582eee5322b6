//! Each error on an input that gives it.

use versioning::chunk::ProllyNode;
use versioning::commit::{ancestors, decode_v2};
use versioning::creds::MemCredStore;
use versioning::func_args::{parse_author, FuncArg};
use versioning::funcs::{
    dolt_cherry_pick, dolt_clone, dolt_config, dolt_creds, dolt_fetch, dolt_pull, dolt_remote,
    dolt_tag,
};
use versioning::model::{ChunkHash, CommitId, Manifest, StoreError, VersionError};
use versioning::orm::{BranchName, OrmError, TableName, VersionedDb};
use versioning::refs::parse_revision;
use versioning::remote_transport::{MemHub, MemTransport};
use versioning::remote_wire::decode_snapshot_record;
use versioning::staging::VcStore;
use versioning::values::{VcRow, VcValue};

fn text<'a>(args: &[&'a str]) -> Vec<FuncArg<'a>> {
    args.iter().map(|a| FuncArg::Text(a)).collect()
}

fn endpoint() -> MemTransport {
    MemTransport::open(&mut MemHub::new(), "x", false, None)
}

fn committed() -> VcStore {
    let mut s = VcStore::new("main");
    s.config_set("user.name", "Ada");
    s.config_set("user.email", "ada@example.com");
    s.apply_work(
        "t",
        vec!["id".to_string()],
        vec!["id".to_string()],
        vec![VcRow::new(vec![VcValue::Integer(1)])],
        String::new(),
    );
    s.track_table("t");
    s.dolt_add(&["t"]).unwrap();
    s.dolt_commit("seed", None, false, false).unwrap();
    s
}

#[test]
fn remote_arguments() {
    let mut s = VcStore::new("main");
    let ask = |s: &mut VcStore, args: &[&str]| dolt_remote(s, &text(args)).unwrap_err();
    assert_eq!(ask(&mut s, &["add"]), VersionError::ActionAndNameRequired);
    assert_eq!(ask(&mut s, &["add", "o"]), VersionError::UrlRequiredForAdd);
    assert_eq!(ask(&mut s, &["move", "o"]), VersionError::UnknownRemoteAction);
    assert_eq!(
        ask(&mut s, &["add", "o", "u", "x"]),
        VersionError::TooManyArguments
    );
    assert_eq!(
        ask(&mut s, &["remove", "o", "u"]),
        VersionError::TooManyArguments
    );
}

#[test]
fn transfer_arguments() {
    let mut s = VcStore::new("main");
    let mut t = endpoint();
    assert_eq!(
        dolt_fetch(&mut s, &mut t, &text(&["o", "b", "c"])).unwrap_err(),
        VersionError::UsageDoltFetch
    );
    assert_eq!(
        dolt_fetch(&mut s, &mut t, &text(&["o", ""])).unwrap_err(),
        VersionError::BranchNameRequired
    );
    assert_eq!(
        dolt_pull(&mut s, &mut t, &text(&["o"])).unwrap_err(),
        VersionError::UsageDoltPull
    );
    assert_eq!(
        dolt_clone(&mut s, &mut t, &text(&["--deep", "u"])).unwrap_err(),
        VersionError::UsageDoltClone
    );
    assert_eq!(
        dolt_config(&mut s, &[]).unwrap_err(),
        VersionError::IncorrectArity("dolt_config".to_string())
    );
}

#[test]
fn credential_arguments() {
    let mut c = MemCredStore::new();
    assert_eq!(
        dolt_creds(&mut c, &text(&["use"])).unwrap_err(),
        VersionError::UsageDoltCreds
    );
    assert_eq!(
        dolt_creds(&mut c, &text(&["use", "nope"])).unwrap_err(),
        VersionError::NoSuchCredential
    );
}

#[test]
fn names_that_are_not_there() {
    let mut s = committed();
    assert_eq!(
        dolt_tag(&mut s, &text(&["-d", "v9"])).unwrap_err(),
        VersionError::TagNotFound("v9".to_string())
    );
    let missing = CommitId([0xAA; 20]);
    assert_eq!(
        dolt_cherry_pick(&mut s, &text(&[&missing.to_hex()])).unwrap_err(),
        VersionError::CommitNotFound(missing.to_hex())
    );
    assert_eq!(
        ancestors(&s.commits, missing).unwrap_err(),
        VersionError::CommitNotFound(missing.to_hex())
    );
    assert_eq!(
        s.delete_branch("nope").unwrap_err(),
        VersionError::BranchNotFound("nope".to_string())
    );
}

#[test]
fn authors_are_needed() {
    let mut s = VcStore::new("main");
    s.track_table("t");
    s.dolt_add(&["t"]).unwrap();
    assert_eq!(
        s.dolt_commit("m", None, false, false).unwrap_err(),
        VersionError::InvalidAuthor
    );
    assert_eq!(parse_author("nobody").unwrap_err(), VersionError::InvalidAuthor);
    assert_eq!(
        parse_author("Ada <a@b>").unwrap(),
        ("Ada".to_string(), "a@b".to_string())
    );
}

#[test]
fn a_second_rebase_is_refused() {
    let mut s = committed();
    s.create_branch("feature").unwrap();
    s.checkout("feature").unwrap();
    s.track_table("u");
    s.dolt_add(&["u"]).unwrap();
    s.dolt_commit("more", None, false, false).unwrap();
    assert_eq!(s.rebase_plan("main").unwrap(), 1);
    assert_eq!(
        s.rebase_plan("main").unwrap_err(),
        VersionError::RebaseInProgress
    );
}

#[test]
fn a_lazy_clone_does_not_merge() {
    let mut t = endpoint();
    let mut a = committed();
    a.remote_add("origin", "mem://x").unwrap();
    a.push(&mut t, "origin", "main", false).unwrap();
    let mut b = VcStore::new("main");
    b.clone_remote(&mut t, "mem://x", true).unwrap();
    b.config_set("user.name", "Bob");
    b.config_set("user.email", "bob@example.com");
    b.track_table("own");
    b.dolt_add(&["own"]).unwrap();
    b.dolt_commit("own", None, false, false).unwrap();
    a.track_table("more");
    a.dolt_add(&["more"]).unwrap();
    a.dolt_commit("more", None, false, false).unwrap();
    a.push(&mut t, "origin", "main", false).unwrap();
    assert_eq!(
        b.pull(&mut t, "origin", "main").unwrap_err(),
        VersionError::PullLazyNonFF
    );
}

#[test]
fn bytes_that_are_nothing() {
    assert_eq!(
        decode_v2(&[3, 1]).unwrap_err(),
        VersionError::InvalidCommitEncoding
    );
    assert_eq!(
        decode_snapshot_record(&[1]).unwrap_err(),
        VersionError::InvalidSnapshotEncoding
    );
    assert!(matches!(
        ProllyNode::decode(&[0; 16]),
        Err(StoreError::BadNodeMagic)
    ));
    assert!(matches!(
        Manifest::decode(&[0; 168]),
        Err(StoreError::BadManifest)
    ));
    assert!(matches!(
        ChunkHash::from_hex("xy"),
        Err(StoreError::BadHash(_))
    ));
}

#[test]
fn revisions_that_are_none() {
    assert_eq!(
        parse_revision("a~b").unwrap_err(),
        VersionError::InvalidRevisionSpec("a~b".to_string())
    );
}

#[test]
fn typed_names_and_messages() {
    assert_eq!(
        TableName::new("a/b").unwrap_err(),
        VersionError::TableNotFound("a/b".to_string())
    );
    assert_eq!(
        BranchName::new(" ").unwrap_err(),
        VersionError::BranchNotFound(" ".to_string())
    );
    let mut db = VersionedDb::new("main").unwrap();
    let e = db.checkout(BranchName::new("dev").unwrap()).unwrap_err();
    assert_eq!(e.to_string(), "orm: branch not found: dev");
    assert_eq!(
        OrmError::Decode("x".to_string()).to_string(),
        "orm: row decode failed: x"
    );
    assert_eq!(
        OrmError::TableNotFound("t".to_string()).to_string(),
        "orm: table not found: t"
    );
}
