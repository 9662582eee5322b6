//! Conflicts and their resolution.

use versioning::conflicts::{resolve_conflict, ConflictEntry, ConflictKind, ResolveSide};
use versioning::staging::VcStore;
use versioning::values::{VcRow, VcValue};

fn configured_store() -> VcStore {
    let mut s = VcStore::new("main");
    s.config_set("user.name", "Ada");
    s.config_set("user.email", "ada@example.com");
    s.track_table("t");
    s.dolt_add(&["t"]).unwrap();
    s.set_now(1);
    s.dolt_commit("seed", None, false, false).unwrap();
    s
}

fn entry(table: &str, pk: i64) -> ConflictEntry {
    ConflictEntry {
        table: table.to_string(),
        pk: vec![VcValue::Integer(pk)],
        base: Some(VcRow::new(vec![
            VcValue::Integer(pk),
            VcValue::Text("b".into()),
        ])),
        ours: Some(VcRow::new(vec![
            VcValue::Integer(pk),
            VcValue::Text("o".into()),
        ])),
        theirs: Some(VcRow::new(vec![
            VcValue::Integer(pk),
            VcValue::Text("t".into()),
        ])),
        kind: ConflictKind::Rows,
        ours_schema: None,
        theirs_schema: None,
    }
}

#[test]
fn conflicts_are_transient_and_never_in_commits() {
    let mut s = configured_store();
    s.conflicts.push(entry("t", 1));
    // The conflict lives in working memory; committed snapshots never see it.
    let committed = s.committed_snapshot_tables();
    assert!(!committed.contains(&"t".to_string()));
    s.dolt_add(&["t"]).unwrap();
    s.set_now(2);
    assert_eq!(
        s.dolt_commit("x", None, false, false)
            .unwrap_err()
            .to_string(),
        "cannot commit: unresolved merge conflicts"
    );
}

#[test]
fn resolve_ours_applies_ours_image_and_drops_entry() {
    let mut s = configured_store();
    s.conflicts.push(entry("t", 1));
    let side = ResolveSide::Ours;
    resolve_conflict(&mut s, "t", &vec![VcValue::Integer(1)], side).unwrap();
    assert!(s.conflicts.is_empty());
    let images = s.take_pending_resolve();
    assert_eq!(images.len(), 1);
    assert_eq!(images[0].0, "t");
    assert_eq!(images[0].1, vec![VcValue::Integer(1)]);
    assert_eq!(
        images[0].2.as_ref().unwrap().values[1],
        VcValue::Text("o".into())
    );
}

#[test]
fn resolve_theirs_applies_theirs_image() {
    let mut s = configured_store();
    s.conflicts.push(entry("t", 1));
    resolve_conflict(&mut s, "t", &vec![VcValue::Integer(1)], ResolveSide::Theirs).unwrap();
    let images = s.take_pending_resolve();
    assert_eq!(
        images[0].2.as_ref().unwrap().values[1],
        VcValue::Text("t".into())
    );
}

#[test]
fn resolve_deleted_side_records_a_delete() {
    let mut s = configured_store();
    let mut e = entry("t", 1);
    e.ours = None;
    s.conflicts.push(e);
    resolve_conflict(&mut s, "t", &vec![VcValue::Integer(1)], ResolveSide::Ours).unwrap();
    let images = s.take_pending_resolve();
    assert!(images[0].2.is_none());
}

#[test]
fn resolving_last_conflict_unblocks_commit() {
    let mut s = configured_store();
    s.conflicts.push(entry("t", 1));
    s.conflicts.push(entry("t", 2));
    s.dolt_add(&["t"]).unwrap();
    s.set_now(2);
    assert_eq!(
        s.dolt_commit("x", None, false, false)
            .unwrap_err()
            .to_string(),
        "cannot commit: unresolved merge conflicts"
    );
    resolve_conflict(&mut s, "t", &vec![VcValue::Integer(1)], ResolveSide::Ours).unwrap();
    s.dolt_add(&["t"]).unwrap();
    s.set_now(3);
    assert_eq!(
        s.dolt_commit("x", None, false, false)
            .unwrap_err()
            .to_string(),
        "cannot commit: unresolved merge conflicts"
    );
    resolve_conflict(&mut s, "t", &vec![VcValue::Integer(2)], ResolveSide::Theirs).unwrap();
    s.dolt_add(&["t"]).unwrap();
    s.set_now(4);
    assert!(s.dolt_commit("x", None, false, false).is_ok());
}

#[test]
fn resolve_missing_conflict_is_an_error() {
    let mut s = configured_store();
    let err =
        resolve_conflict(&mut s, "t", &vec![VcValue::Integer(1)], ResolveSide::Ours).unwrap_err();
    assert_eq!(err.to_string(), "no conflict found for table 't'");
}

#[test]
fn schema_conflicts_are_recorded_with_detail() {
    let mut s = configured_store();
    s.conflicts.push(ConflictEntry {
        table: "t".to_string(),
        pk: Vec::new(),
        base: None,
        ours: None,
        theirs: None,
        kind: ConflictKind::Schema("primary key changed on both sides".to_string()),
        ours_schema: None,
        theirs_schema: None,
    });
    assert_eq!(s.conflict_entries().len(), 1);
    let entries = s.conflict_entries();
    assert_eq!(
        entries[0].kind,
        ConflictKind::Schema("primary key changed on both sides".to_string())
    );
}
