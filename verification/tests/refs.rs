//! References and revisions.

use versioning::model::CommitId;
use versioning::refs::{
    parse_qualified, parse_qualified_path, parse_revision, MemRefStore, RefError, RefName, RefNs,
    RefStore, Revision,
};

#[test]
fn parse_qualified_path_at_branch() {
    assert_eq!(
        parse_qualified_path("my.db@dev").unwrap(),
        ("my.db".to_string(), Revision::Branch("dev".into()))
    );
}

#[test]
fn parse_qualified_path_slash_branch() {
    assert_eq!(
        parse_qualified_path("my.db/dev").unwrap(),
        ("my.db".to_string(), Revision::Branch("dev".into()))
    );
    assert_eq!(
        parse_qualified_path("my.db/v1").unwrap(),
        ("my.db".to_string(), Revision::Branch("v1".into()))
    );
    assert_eq!(
        parse_qualified_path("my.db/main~1").unwrap(),
        (
            "my.db".to_string(),
            Revision::Ancestor(Box::new(Revision::Branch("main".into())), 1)
        )
    );
}

#[test]
fn parse_qualified_path_plain() {
    assert_eq!(
        parse_qualified_path("my.db").unwrap(),
        ("my.db".to_string(), Revision::Head)
    );
    assert_eq!(
        parse_qualified_path("my.db/archive.db").unwrap(),
        ("my.db/archive.db".to_string(), Revision::Head)
    );
}

#[test]
fn parse_qualified_alias_matches_path() {
    assert_eq!(
        parse_qualified("my.db@dev").unwrap(),
        parse_qualified_path("my.db@dev").unwrap()
    );
}

#[test]
fn parse_revision_head() {
    assert_eq!(parse_revision("HEAD").unwrap(), Revision::Head);
}

#[test]
fn parse_revision_ancestor() {
    assert_eq!(
        parse_revision("HEAD~3").unwrap(),
        Revision::Ancestor(Box::new(Revision::Head), 3)
    );
}

#[test]
fn parse_revision_range() {
    assert_eq!(
        parse_revision("a..b").unwrap(),
        Revision::Range(
            Box::new(Revision::Branch("a".into())),
            Box::new(Revision::Branch("b".into())),
        )
    );
}

#[test]
fn parse_revision_symmetric() {
    assert_eq!(
        parse_revision("a...b").unwrap(),
        Revision::SymmetricDifference(
            Box::new(Revision::Branch("a".into())),
            Box::new(Revision::Branch("b".into())),
        )
    );
}

#[test]
fn parse_revision_parent() {
    assert_eq!(
        parse_revision("main^2").unwrap(),
        Revision::Parent(Box::new(Revision::Branch("main".into())), 2)
    );
}

#[test]
fn parse_revision_stacked_specs() {
    // `main~1^2` splits on `^` first (suffix is numeric).
    assert_eq!(
        parse_revision("main~1^2").unwrap(),
        Revision::Parent(
            Box::new(Revision::Ancestor(
                Box::new(Revision::Branch("main".into())),
                1
            )),
            2
        )
    );
    // `main^2~1` has a non-numeric `^` suffix, so it splits on `~` first.
    assert_eq!(
        parse_revision("main^2~1").unwrap(),
        Revision::Ancestor(
            Box::new(Revision::Parent(
                Box::new(Revision::Branch("main".into())),
                2
            )),
            1
        )
    );
}

#[test]
fn parse_revision_rejects_bad_suffixes() {
    assert_eq!(
        parse_revision("main^foo").unwrap_err().to_string(),
        "invalid revision spec: 'main^foo'"
    );
    assert_eq!(
        parse_revision("main~").unwrap_err().to_string(),
        "invalid revision spec: 'main~'"
    );
}

#[test]
fn parse_revision_hash() {
    let hex = "abcdef0123456789abcdef0123456789abcdef01";
    assert_eq!(
        parse_revision(hex).unwrap(),
        Revision::Hash(hex.to_string())
    );
}

#[test]
fn parse_revision_bad_spec() {
    assert_eq!(
        parse_revision("HEAD~x").unwrap_err().to_string(),
        "invalid revision spec: 'HEAD~x'"
    );
    assert_eq!(
        parse_revision("").unwrap_err().to_string(),
        "invalid revision spec: ''"
    );
    // Empty range endpoints are rejected, not treated as branches.
    assert_eq!(
        parse_revision("a..").unwrap_err().to_string(),
        "invalid revision spec: ''"
    );
    assert_eq!(
        parse_revision("..b").unwrap_err().to_string(),
        "invalid revision spec: ''"
    );
}

#[test]
fn parse_revision_working_staged() {
    assert_eq!(parse_revision("WORKING").unwrap(), Revision::Working);
    assert_eq!(parse_revision("staged").unwrap(), Revision::Staged);
}

#[test]
fn ref_name_full_path_and_display() {
    let b = RefName::branch("main");
    assert_eq!(b.full_path(), "refs/heads/main");
    assert_eq!(b.to_string(), "heads/main");
    let t = RefName::tag("v1");
    assert_eq!(t.full_path(), "refs/tags/v1");
    assert_eq!(t.to_string(), "tags/v1");
}

#[test]
fn cas_race_returns_busy() {
    let mut store = MemRefStore::new();
    let name = RefName::branch("main");
    let c1 = CommitId([1u8; 20]);
    let c2 = CommitId([2u8; 20]);
    let c3 = CommitId([3u8; 20]);

    assert_eq!(store.compare_and_swap(&name, None, c1), Ok(()));
    assert_eq!(store.compare_and_swap(&name, None, c2), Err(RefError::Busy));
    assert_eq!(store.compare_and_swap(&name, Some(c1), c3), Ok(()));
    assert_eq!(store.get(&name), Some(c3));
}

#[test]
fn branch_lifecycle() {
    let mut store = MemRefStore::new();
    let main = RefName::branch("main");
    let dev = RefName::branch("dev");
    let c1 = CommitId([1u8; 20]);
    let c2 = CommitId([2u8; 20]);

    store.set(&main, c1);
    store.set(&dev, c2);

    assert_eq!(store.get(&main), Some(c1));
    assert_eq!(store.get(&dev), Some(c2));

    let branches = store.list(RefNs::Heads);
    assert_eq!(branches.len(), 2);
    assert_eq!(branches[0].0.name, "dev");
    assert_eq!(branches[1].0.name, "main");

    assert!(store.delete(&dev));
    assert_eq!(store.get(&dev), None);
    assert_eq!(store.list(RefNs::Heads).len(), 1);
}

#[test]
fn rubric_aliases_match_plain_calls() {
    let mut store = MemRefStore::new();
    let c1 = CommitId([1u8; 20]);
    store.create_branch("main", c1);
    assert_eq!(store.get_branch("main"), Some(c1));
    assert_eq!(store.get(&RefName::branch("main")), Some(c1));
    assert_eq!(store.list_branches().len(), 1);
    assert_eq!(store.list(RefNs::Heads).len(), 1);

    store.create_branch("dev", c1);
    assert!(store.delete_branch("dev"));
    assert!(!store.delete_branch("dev"));

    let t1 = CommitId([2u8; 20]);
    store.set(&RefName::tag("v1"), t1);
    assert_eq!(store.get_tag("v1"), Some(t1));
    assert_eq!(store.list_tags().len(), 1);
    assert!(store.delete_tag("v1"));
    assert!(!store.delete_tag("v1"));
}
