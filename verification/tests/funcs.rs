//! The scalar functions.

use versioning::constraints::{Violation, ViolationKind};
use versioning::creds::MemCredStore;
use versioning::func_args::{arg_to_value, FuncArg, FuncValue};
use versioning::funcs::{
    dolt_active_branch, dolt_add, dolt_branch, dolt_checkout, dolt_cherry_pick, dolt_clean,
    dolt_clone, dolt_commit, dolt_config, dolt_conflicts_resolve, dolt_creds, dolt_creds_new,
    dolt_fetch, dolt_gc, dolt_hashof, dolt_hashof_db, dolt_merge, dolt_merge_base, dolt_push,
    dolt_rebase, dolt_remote, dolt_reset, dolt_revert, dolt_status, dolt_tag,
    dolt_verify_constraints, dolt_version, doltlite_engine,
};
use versioning::model::VersionError;
use versioning::remote_transport::{MemHub, MemTransport};
use versioning::staging::{working_id, VcStore};
use versioning::values::{VcRow, VcValue};

fn store() -> VcStore {
    VcStore::new("main")
}

fn commit_store(s: &mut VcStore) {
    s.config_set("user.name", "Ada");
    s.config_set("user.email", "ada@example.com");
    s.track_table("t1");
    s.dolt_add(&["t1"]).unwrap();
    s.set_now(1);
    s.dolt_commit("first", None, false, false).unwrap();
}

#[test]
fn version_and_engine() {
    assert_eq!(
        dolt_version(&[]).unwrap(),
        FuncValue::Text("v0.1.0".to_string())
    );
    assert_eq!(
        doltlite_engine(&[]).unwrap(),
        FuncValue::Text("prolly".into())
    );
    assert_eq!(
        dolt_version(&[FuncArg::Text("x")]).unwrap_err().to_string(),
        "incorrect number of arguments to dolt_version"
    );
}

#[test]
fn remote_scalars_parse_and_run() {
    let mut t = MemTransport::open(&mut MemHub::new(), "funcs-remote-scalars", false, None);
    let mut s = store();
    commit_store(&mut s);
    assert_eq!(
        dolt_remote(
            &mut s,
            &[
                FuncArg::Text("add"),
                FuncArg::Text("origin"),
                FuncArg::Text("mem://funcs-remote-scalars"),
            ],
        )
        .unwrap(),
        FuncValue::Integer(0)
    );
    assert_eq!(
        dolt_push(&mut s, &mut t, &[FuncArg::Text("origin"), FuncArg::Text("main")],).unwrap(),
        FuncValue::Integer(0)
    );

    let mut clone = store();
    assert_eq!(
        dolt_clone(&mut clone, &mut t, &[FuncArg::Text("mem://funcs-remote-scalars")],).unwrap(),
        FuncValue::Integer(0)
    );
    assert_eq!(clone.head_commit(), s.head_commit());
}

#[test]
fn remote_scalar_errors_are_exact() {
    let mut t = MemTransport::open(&mut MemHub::new(), "funcs-remote-scalars", false, None);
    let mut s = store();
    assert_eq!(
        dolt_remote(&mut s, &[]).unwrap_err(),
        VersionError::UsageDoltRemote
    );
    assert_eq!(
        dolt_push(&mut s, &mut t, &[FuncArg::Text("origin")]).unwrap_err(),
        VersionError::RemoteAndBranchRequired
    );
    assert_eq!(
        dolt_push(
            &mut s, &mut t,
            &[
                FuncArg::Text("origin"),
                FuncArg::Text("main"),
                FuncArg::Text("--nope"),
            ],
        )
        .unwrap_err(),
        VersionError::UnknownOption("--nope".to_string())
    );
    assert_eq!(
        dolt_fetch(&mut s, &mut t, &[]).unwrap_err(),
        VersionError::RemoteNameRequired
    );
    assert_eq!(
        dolt_clone(&mut s, &mut t, &[]).unwrap_err(),
        VersionError::UrlRequired
    );
}

#[test]
fn gc_and_credential_scalars_run() {
    let mut creds = MemCredStore::new();
    let mut s = store();
    assert_eq!(
        dolt_gc(&mut s, &[]).unwrap(),
        FuncValue::Text("0 chunks removed, 0 chunks kept".to_string())
    );
    let FuncValue::Text(kid) = dolt_creds_new(&mut creds, &[]).unwrap() else {
        panic!("credential id")
    };
    assert_eq!(kid.len(), 64);
    let FuncValue::Text(list) = dolt_creds(&mut creds, &[]).unwrap() else {
        panic!("credential list")
    };
    assert_eq!(list.lines().next(), Some(kid.as_str()));
}

#[test]
fn add_commit_hashof_roundtrip() {
    let mut s = store();
    commit_store(&mut s);
    let id = s.head_commit().unwrap();
    assert_eq!(
        dolt_hashof(&mut s, &[FuncArg::Text("HEAD")]).unwrap(),
        FuncValue::Text(id.to_hex())
    );
}

#[test]
fn add_arity_enforced() {
    let mut s = store();
    assert_eq!(
        dolt_add(&mut s, &[]).unwrap_err().to_string(),
        "incorrect number of arguments to dolt_add"
    );
}

#[test]
fn hashof_working_reads_sentinel_while_set_lives() {
    // The working set has a fixed id.
    let mut s = store();
    assert_eq!(
        dolt_hashof(&mut s, &[FuncArg::Text("WORKING")])
            .unwrap_err()
            .to_string(),
        "invalid revision spec: 'WORKING'"
    );
    s.track_table("t1");
    assert_eq!(
        dolt_hashof(&mut s, &[FuncArg::Text("WORKING")]).unwrap(),
        FuncValue::Text(working_id().to_hex())
    );
}

#[test]
fn add_returns_count_and_minus_a_stages_all() {
    let mut s = store();
    s.track_table("t1");
    s.track_table("t2");
    assert_eq!(
        dolt_add(&mut s, &[FuncArg::Text("-A")]).unwrap(),
        FuncValue::Integer(2)
    );
    assert!(s.status().iter().all(|r| r.staged));
}

#[test]
fn commit_gate_nothing_to_commit() {
    let mut s = store();
    assert_eq!(
        dolt_commit(&mut s, &[FuncArg::Text("msg")])
            .unwrap_err()
            .to_string(),
        "nothing to commit"
    );
}

#[test]
fn commit_flag_forms() {
    let mut s = store();
    commit_store(&mut s);
    for (i, args) in [
        vec![FuncArg::Text("-m"), FuncArg::Text("via -m")],
        vec![FuncArg::Text("-A"), FuncArg::Text("via -A")],
        vec![FuncArg::Text("-am"), FuncArg::Text("via -am")],
        vec![
            FuncArg::Text("--author"),
            FuncArg::Text("Grace <grace@example.com>"),
            FuncArg::Text("-m"),
            FuncArg::Text("via --author"),
        ],
    ]
    .into_iter()
    .enumerate()
    {
        s.dolt_add(&["t1"]).unwrap();
        s.set_now(i as i64 + 2);
        let id = dolt_commit(&mut s, &args).unwrap();
        assert_eq!(id, FuncValue::Text(s.head_commit().unwrap().to_hex()));
    }
}

#[test]
fn commit_force_flag_bypasses_violations() {
    let mut s = store();
    commit_store(&mut s);
    s.violations.push(Violation {
        table: "t1".to_string(),
        kind: ViolationKind::Unique,
        row_pk: Vec::new(),
        detail: String::new(),
    });
    s.dolt_add(&["t1"]).unwrap();
    s.set_now(2);
    assert_eq!(
        dolt_commit(&mut s, &[FuncArg::Text("msg")])
            .unwrap_err()
            .to_string(),
        "cannot commit: constraint violations remain"
    );
    assert!(dolt_commit(&mut s, &[FuncArg::Text("--force"), FuncArg::Text("msg")]).is_ok());
}

#[test]
fn branch_list_create_checkout() {
    let mut s = store();
    commit_store(&mut s);
    dolt_branch(&mut s, &[FuncArg::Text("dev")]).unwrap();
    let list = dolt_branch(&mut s, &[]).unwrap();
    assert_eq!(list, FuncValue::Text("dev\nmain".into()));
    dolt_checkout(&mut s, &[FuncArg::Text("dev")]).unwrap();
    assert_eq!(
        dolt_active_branch(&mut s, &[]).unwrap(),
        FuncValue::Text("dev".into())
    );
    assert_eq!(
        dolt_branch(&mut s, &[FuncArg::Text("dev")])
            .unwrap_err()
            .to_string(),
        "branch 'dev' already exists"
    );
}

#[test]
fn tag_create_resolve_and_delete() {
    let mut s = store();
    commit_store(&mut s);
    dolt_tag(&mut s, &[FuncArg::Text("v1")]).unwrap();
    assert_eq!(dolt_hashof(&mut s, &[FuncArg::Text("v1")]).unwrap(), {
        let id = s.head_commit().unwrap();
        FuncValue::Text(id.to_hex())
    });
    assert_eq!(
        dolt_tag(&mut s, &[FuncArg::Text("-d"), FuncArg::Text("v1")]).unwrap(),
        FuncValue::Text("v1".into())
    );
    // A deleted tag name is no longer resolvable through the spec parser,
    // which maps bare names to branches first.
    assert_eq!(
        dolt_hashof(&mut s, &[FuncArg::Text("v1")])
            .unwrap_err()
            .to_string(),
        "branch not found: v1"
    );
}

#[test]
fn config_get_set() {
    let mut s = store();
    assert_eq!(
        dolt_config(&mut s, &[FuncArg::Text("user.name")]).unwrap(),
        FuncValue::Null
    );
    dolt_config(
        &mut s,
        &[FuncArg::Text("user.name"), FuncArg::Text("Grace")],
    )
    .unwrap();
    assert_eq!(
        dolt_config(&mut s, &[FuncArg::Text("user.name")]).unwrap(),
        FuncValue::Text("Grace".into())
    );
}

#[test]
fn status_reset_clean_roundtrip() {
    let mut s = store();
    s.config_set("user.name", "Ada");
    s.config_set("user.email", "ada@example.com");
    s.track_table("t1");
    assert_eq!(
        dolt_add(&mut s, &[FuncArg::Text("t1")]).unwrap(),
        FuncValue::Integer(1)
    );
    assert_eq!(
        dolt_status(&mut s, &[]).unwrap(),
        FuncValue::Text("t1|1|new table".into())
    );
    assert_eq!(dolt_reset(&mut s, &[]).unwrap(), FuncValue::Integer(0));
    assert_eq!(
        dolt_status(&mut s, &[]).unwrap(),
        FuncValue::Text("t1|0|modified".into())
    );
    assert_eq!(
        dolt_reset(&mut s, &[FuncArg::Text("--hard")]).unwrap(),
        FuncValue::Integer(0)
    );
    assert_eq!(
        dolt_status(&mut s, &[]).unwrap(),
        FuncValue::Text("".into())
    );
    assert_eq!(dolt_clean(&mut s, &[]).unwrap(), FuncValue::Integer(0));
}

#[test]
fn hashof_db_history_independent() {
    let mut a = store();
    let mut b = store();
    for (store, names) in [(&mut a, ["t1", "t2"]), (&mut b, ["t2", "t1"])] {
        for name in names {
            store.track_table(name);
            store.apply_work(name, Vec::new(), Vec::new(), Vec::new(), String::new());
        }
    }
    assert_eq!(
        dolt_hashof_db(&mut a, &[]).unwrap(),
        dolt_hashof_db(&mut b, &[]).unwrap()
    );
    a.track_table("t3");
    a.apply_work("t3", Vec::new(), Vec::new(), Vec::new(), String::new());
    assert_ne!(
        dolt_hashof_db(&mut a, &[]).unwrap(),
        dolt_hashof_db(&mut b, &[]).unwrap()
    );
}

fn apply_and_commit(s: &mut VcStore, msg: &str) {
    let tables: Vec<String> = s.work_tables_content();
    for t in &tables {
        if !s.tables().contains(t) {
            s.track_table(t);
        }
    }
    let names: Vec<&str> = tables.iter().map(|t| t.as_str()).collect();
    let args: Vec<FuncArg> = names.iter().map(|n| FuncArg::Text(n)).collect();
    dolt_add(s, &args).unwrap();
    dolt_commit(s, &[FuncArg::Text(msg)]).unwrap();
}

fn seed_clean_feature() -> (VcStore, String) {
    let mut s = store();
    s.config_set("user.name", "Ada");
    s.config_set("user.email", "ada@example.com");
    s.apply_work(
        "t",
        vec!["id".to_string(), "v".to_string()],
        vec!["id".to_string()],
        vec![
            VcRow::new(vec![VcValue::Integer(1), VcValue::Text("a".into())]),
            VcRow::new(vec![VcValue::Integer(2), VcValue::Text("b".into())]),
        ],
        String::new(),
    );
    apply_and_commit(&mut s, "seed");
    dolt_branch(&mut s, &[FuncArg::Text("feature")]).unwrap();
    dolt_checkout(&mut s, &[FuncArg::Text("feature")]).unwrap();
    s.apply_work(
        "t",
        vec!["id".to_string(), "v".to_string()],
        vec!["id".to_string()],
        vec![
            VcRow::new(vec![VcValue::Integer(1), VcValue::Text("a".into())]),
            VcRow::new(vec![VcValue::Integer(2), VcValue::Text("b".into())]),
            VcRow::new(vec![VcValue::Integer(3), VcValue::Text("feat".into())]),
        ],
        String::new(),
    );
    apply_and_commit(&mut s, "feature work");
    let feature = s.head_commit().unwrap().to_hex();
    dolt_checkout(&mut s, &[FuncArg::Text("main")]).unwrap();
    s.apply_work(
        "t",
        vec!["id".to_string(), "v".to_string()],
        vec!["id".to_string()],
        vec![
            VcRow::new(vec![VcValue::Integer(1), VcValue::Text("a".into())]),
            VcRow::new(vec![VcValue::Integer(2), VcValue::Text("b".into())]),
            VcRow::new(vec![VcValue::Integer(4), VcValue::Text("main".into())]),
        ],
        String::new(),
    );
    apply_and_commit(&mut s, "main work");
    (s, feature)
}

fn seed_divergent() -> (VcStore, String) {
    let mut s = store();
    s.config_set("user.name", "Ada");
    s.config_set("user.email", "ada@example.com");
    s.apply_work(
        "t",
        vec!["id".to_string(), "v".to_string()],
        vec!["id".to_string()],
        vec![VcRow::new(vec![
            VcValue::Integer(1),
            VcValue::Text("base".into()),
        ])],
        String::new(),
    );
    apply_and_commit(&mut s, "seed");
    dolt_branch(&mut s, &[FuncArg::Text("feature")]).unwrap();
    dolt_checkout(&mut s, &[FuncArg::Text("feature")]).unwrap();
    s.apply_work(
        "t",
        vec!["id".to_string(), "v".to_string()],
        vec!["id".to_string()],
        vec![VcRow::new(vec![
            VcValue::Integer(1),
            VcValue::Text("theirs".into()),
        ])],
        String::new(),
    );
    apply_and_commit(&mut s, "feature work");
    let feature = s.head_commit().unwrap().to_hex();
    dolt_checkout(&mut s, &[FuncArg::Text("main")]).unwrap();
    s.apply_work(
        "t",
        vec!["id".to_string(), "v".to_string()],
        vec!["id".to_string()],
        vec![VcRow::new(vec![
            VcValue::Integer(1),
            VcValue::Text("ours".into()),
        ])],
        String::new(),
    );
    apply_and_commit(&mut s, "main work");
    (s, feature)
}

#[test]
fn merge_clean_returns_commit_hash() {
    let (mut s, feature) = seed_clean_feature();
    let result = dolt_merge(&mut s, &[FuncArg::Text(&feature)]).unwrap();
    match result {
        FuncValue::Text(hash) => assert_eq!(hash, s.head_commit().unwrap().to_hex()),
        other => panic!("expected hash, got {other:?}"),
    }
}

#[test]
fn merge_conflict_returns_report_and_resolve_unblocks() {
    let (mut s, feature) = seed_divergent();
    let result = dolt_merge(&mut s, &[FuncArg::Text(&feature)]).unwrap();
    assert_eq!(
        result,
        FuncValue::Text("merge conflict: 1 conflicting rows in 1 tables".into())
    );
    // Commit is refused while conflicted.
    assert_eq!(
        dolt_commit(&mut s, &[FuncArg::Text("x")])
            .unwrap_err()
            .to_string(),
        "cannot commit: unresolved merge conflicts"
    );
    // Resolve --theirs then commit.
    assert_eq!(
        dolt_conflicts_resolve(
            &mut s,
            &[
                FuncArg::Text("--theirs"),
                FuncArg::Text("t"),
                FuncArg::Integer(1)
            ],
        )
        .unwrap(),
        FuncValue::Integer(0)
    );
    assert!(dolt_commit(&mut s, &[FuncArg::Text("merged")]).is_ok());
}

#[test]
fn merge_abort_flag_errors_without_merge() {
    let mut s = store();
    assert_eq!(
        dolt_merge(&mut s, &[FuncArg::Text("--abort")])
            .unwrap_err()
            .to_string(),
        "no merge in progress"
    );
}

#[test]
fn merge_schema_conflict_reports_error_and_status_flag() {
    let mut s = store();
    s.config_set("user.name", "Ada");
    s.config_set("user.email", "ada@example.com");
    s.apply_work(
        "t",
        vec!["a".to_string(), "b".to_string()],
        vec!["a".to_string()],
        vec![VcRow::new(vec![
            VcValue::Integer(1),
            VcValue::Text("x".into()),
        ])],
        String::new(),
    );
    apply_and_commit(&mut s, "seed");
    dolt_branch(&mut s, &[FuncArg::Text("feature")]).unwrap();
    dolt_checkout(&mut s, &[FuncArg::Text("feature")]).unwrap();
    s.apply_work(
        "t",
        vec!["a".to_string(), "b".to_string()],
        vec!["b".to_string()],
        vec![VcRow::new(vec![
            VcValue::Integer(1),
            VcValue::Text("x".into()),
        ])],
        String::new(),
    );
    apply_and_commit(&mut s, "feature work");
    dolt_checkout(&mut s, &[FuncArg::Text("main")]).unwrap();
    s.apply_work(
        "t",
        vec!["a".to_string(), "b".to_string()],
        vec!["a".to_string(), "b".to_string()],
        vec![VcRow::new(vec![
            VcValue::Integer(1),
            VcValue::Text("x".into()),
        ])],
        String::new(),
    );
    apply_and_commit(&mut s, "main work");
    let result = dolt_merge(&mut s, &[FuncArg::Text("feature")]).unwrap();
    let FuncValue::Text(message) = result else {
        panic!("expected schema conflict message, got {result:?}");
    };
    assert!(
        message.starts_with("schema conflict in table: t ("),
        "{message}"
    );
    // The status vtable marks the schema conflict.
    let rows = s.merge_status_rows();
    assert_eq!(rows.len(), 1);
    assert_eq!(rows[0].schema_conflict, 1);
    assert_eq!(rows[0].state, "conflicted");
}

#[test]
fn merge_m_parent_selector_through_scalar() {
    let (mut s, feature) = seed_clean_feature();
    // seed_clean_feature's feature tip is a single-parent commit, so -m 1
    // resolves to parent 0 and the merge still lands.
    let result = dolt_merge(
        &mut s,
        &[
            FuncArg::Text(&feature),
            FuncArg::Text("-m"),
            FuncArg::Text("1"),
        ],
    )
    .unwrap();
    match result {
        FuncValue::Text(hash) => assert_eq!(hash, s.head_commit().unwrap().to_hex()),
        other => panic!("expected hash, got {other:?}"),
    }
}

#[test]
fn merge_refused_while_conflicted_through_scalar() {
    let (mut s, feature) = seed_divergent();
    let result = dolt_merge(&mut s, &[FuncArg::Text(&feature)]).unwrap();
    assert!(matches!(result, FuncValue::Text(_)));
    let err = dolt_merge(&mut s, &[FuncArg::Text(&feature)]).unwrap_err();
    assert_eq!(err.to_string(), "merge already in progress");
}

#[test]
fn rebase_plan_with_drop_produces_single_commit() {
    let mut s = store();
    s.config_set("user.name", "Ada");
    s.config_set("user.email", "ada@example.com");
    s.apply_work(
        "t",
        vec!["id".to_string(), "v".to_string()],
        vec!["id".to_string()],
        vec![VcRow::new(vec![
            VcValue::Integer(1),
            VcValue::Text("a".into()),
        ])],
        String::new(),
    );
    apply_and_commit(&mut s, "seed");
    dolt_branch(&mut s, &[FuncArg::Text("feature")]).unwrap();
    dolt_checkout(&mut s, &[FuncArg::Text("feature")]).unwrap();
    s.apply_work(
        "t",
        vec!["id".to_string(), "v".to_string()],
        vec!["id".to_string()],
        vec![
            VcRow::new(vec![VcValue::Integer(1), VcValue::Text("a".into())]),
            VcRow::new(vec![VcValue::Integer(2), VcValue::Text("first".into())]),
        ],
        String::new(),
    );
    apply_and_commit(&mut s, "first");
    s.apply_work(
        "t",
        vec!["id".to_string(), "v".to_string()],
        vec!["id".to_string()],
        vec![
            VcRow::new(vec![VcValue::Integer(1), VcValue::Text("a".into())]),
            VcRow::new(vec![VcValue::Integer(2), VcValue::Text("first".into())]),
            VcRow::new(vec![VcValue::Integer(3), VcValue::Text("second".into())]),
        ],
        String::new(),
    );
    apply_and_commit(&mut s, "second");
    dolt_checkout(&mut s, &[FuncArg::Text("main")]).unwrap();
    dolt_checkout(&mut s, &[FuncArg::Text("feature")]).unwrap();
    // Pause with the plan, drop the oldest commit (HEAD~2), continue.
    assert_eq!(
        dolt_rebase(
            &mut s,
            &[
                FuncArg::Text("--onto"),
                FuncArg::Text("main"),
                FuncArg::Text("--plan")
            ],
        )
        .unwrap(),
        FuncValue::Integer(2)
    );
    assert_eq!(
        dolt_rebase(
            &mut s,
            &[
                FuncArg::Text("--plan"),
                FuncArg::Text("drop HEAD~1"),
                FuncArg::Text("pick HEAD")
            ],
        )
        .unwrap(),
        FuncValue::Integer(0)
    );
    let result = dolt_rebase(&mut s, &[FuncArg::Text("--continue")]).unwrap();
    match result {
        FuncValue::Text(hash) => assert_eq!(hash, s.head_commit().unwrap().to_hex()),
        other => panic!("expected hash, got {other:?}"),
    }
    // One replay commit carrying only the second commit's change.
    let tip = s.head_commit().unwrap();
    let rows = s.table_rows("t", &tip).unwrap();
    assert!(rows.iter().any(|r| r.values.contains(&VcValue::Integer(3))));
    assert!(rows
        .iter()
        .all(|r| !r.values.contains(&VcValue::Integer(2))));
}

#[test]
fn merge_no_commit_and_squash_flags() {
    let (mut s, feature) = seed_clean_feature();
    assert_eq!(
        dolt_merge(
            &mut s,
            &[FuncArg::Text(&feature), FuncArg::Text("--no-commit")]
        )
        .unwrap(),
        FuncValue::Integer(0)
    );
    // The merge state is open; a commit now creates two parents.
    let head = s.head_commit().unwrap();
    s.set_now(50);
    dolt_commit(&mut s, &[FuncArg::Text("finish")]).unwrap();
    assert_ne!(s.head_commit().unwrap(), head);
}

#[test]
fn merge_base_returns_lca_or_null() {
    let (mut s, _feature) = seed_clean_feature();
    let base =
        dolt_merge_base(&mut s, &[FuncArg::Text("main"), FuncArg::Text("feature")]).unwrap();
    match base {
        FuncValue::Text(hash) => assert!(hash.len() == 40),
        other => panic!("expected hash, got {other:?}"),
    }
    // Unrelated store has no LCA.
    let mut empty = store();
    empty.track_table("x");
    assert_eq!(
        dolt_merge_base(&mut empty, &[FuncArg::Text("a"), FuncArg::Text("b")])
            .unwrap_err()
            .to_string(),
        "branch not found: a"
    );
}

#[test]
fn cherry_pick_returns_new_commit_hash() {
    let (mut s, feature) = seed_clean_feature();
    let result = dolt_cherry_pick(&mut s, &[FuncArg::Text(&feature)]).unwrap();
    match result {
        FuncValue::Text(hash) => assert_eq!(hash, s.head_commit().unwrap().to_hex()),
        other => panic!("expected hash, got {other:?}"),
    }
}

#[test]
fn cherry_pick_arity_and_m_flag() {
    let (mut s, feature) = seed_clean_feature();
    assert_eq!(
        dolt_cherry_pick(&mut s, &[]).unwrap_err().to_string(),
        "incorrect number of arguments to dolt_cherry_pick"
    );
    assert_eq!(
        dolt_cherry_pick(
            &mut s,
            &[
                FuncArg::Text(&feature),
                FuncArg::Text("-m"),
                FuncArg::Text("1")
            ],
        )
        .unwrap(),
        FuncValue::Text(s.head_commit().unwrap().to_hex())
    );
}

#[test]
fn revert_returns_inverse_commit() {
    let (mut s, _feature) = seed_clean_feature();
    let main = s.head_commit().unwrap().to_hex();
    let result = dolt_revert(&mut s, &[FuncArg::Text(&main)]).unwrap();
    match result {
        FuncValue::Text(hash) => assert_eq!(hash, s.head_commit().unwrap().to_hex()),
        other => panic!("expected hash, got {other:?}"),
    }
}

#[test]
fn rebase_onto_returns_new_head() {
    let (mut s, _feature) = seed_clean_feature();
    dolt_checkout(&mut s, &[FuncArg::Text("feature")]).unwrap();
    let head_before = s.head_commit().unwrap();
    let result =
        dolt_rebase(&mut s, &[FuncArg::Text("--onto"), FuncArg::Text("main")]).unwrap();
    match result {
        FuncValue::Text(hash) => assert_eq!(hash, s.head_commit().unwrap().to_hex()),
        other => panic!("expected hash, got {other:?}"),
    }
    assert_ne!(s.head_commit().unwrap(), head_before);
}

#[test]
fn rebase_conflict_reports_and_continue_resumes() {
    let (mut s, feature) = seed_divergent();
    dolt_checkout(&mut s, &[FuncArg::Text("feature")]).unwrap();
    let err =
        dolt_rebase(&mut s, &[FuncArg::Text("--onto"), FuncArg::Text("main")]).unwrap_err();
    assert!(err.to_string().starts_with("rebase conflict at "));
    assert!(err.to_string().ends_with(": resolve and --continue"));
    // Atomic: feature's tip never moved.
    let head = s.head_commit().unwrap();
    dolt_conflicts_resolve(
        &mut s,
        &[
            FuncArg::Text("--ours"),
            FuncArg::Text("t"),
            FuncArg::Integer(1),
        ],
    )
    .unwrap();
    let result = dolt_rebase(&mut s, &[FuncArg::Text("--continue")]).unwrap();
    match result {
        FuncValue::Text(hash) => assert_eq!(hash, s.head_commit().unwrap().to_hex()),
        other => panic!("expected hash, got {other:?}"),
    }
    assert_ne!(s.head_commit().unwrap(), head);
    let _ = feature;
}

#[test]
fn rebase_no_progress_errors() {
    let mut s = store();
    assert_eq!(
        dolt_rebase(&mut s, &[FuncArg::Text("--continue")])
            .unwrap_err()
            .to_string(),
        "no rebase in progress"
    );
    assert_eq!(
        dolt_rebase(&mut s, &[FuncArg::Text("--abort")])
            .unwrap_err()
            .to_string(),
        "no rebase in progress"
    );
}

#[test]
fn conflicts_resolve_invalid_side_errors_exact() {
    let (mut s, feature) = seed_divergent();
    dolt_merge(&mut s, &[FuncArg::Text(&feature)]).unwrap();
    let err = dolt_conflicts_resolve(
        &mut s,
        &[
            FuncArg::Text("--mine"),
            FuncArg::Text("t"),
            FuncArg::Integer(1),
        ],
    )
    .unwrap_err();
    assert_eq!(
        err.to_string(),
        "invalid resolve side: '--mine' (want '--ours' or '--theirs')"
    );
}

#[test]
fn arg_to_value_preserves_null_pk_cells() {
    assert_eq!(arg_to_value(&FuncArg::Null), VcValue::Null);
    assert_eq!(arg_to_value(&FuncArg::Integer(7)), VcValue::Integer(7));
    assert_eq!(
        arg_to_value(&FuncArg::Real(1.5f64.to_bits())),
        VcValue::Real(1.5f64.to_bits())
    );
    assert_eq!(
        arg_to_value(&FuncArg::Blob(&[0x00, 0xff])),
        VcValue::Blob(vec![0x00, 0xff])
    );
    assert_eq!(
        arg_to_value(&FuncArg::Text("k")),
        VcValue::Text("k".to_string())
    );
}

#[test]
fn conflicts_resolve_with_null_pk_reaches_store() {
    // A NULL primary-key cell is a real key: the resolve must not silently
    // drop the argument, or the store would look up an empty key.
    let (mut s, feature) = seed_divergent();
    dolt_merge(&mut s, &[FuncArg::Text(&feature)]).unwrap();
    s.conflicts[0].pk = vec![VcValue::Null];
    // The store still resolves by the NULL key; a wrong side is what
    // errors, proving the NULL cell was passed through untouched.
    assert!(dolt_conflicts_resolve(
        &mut s,
        &[FuncArg::Text("--ours"), FuncArg::Text("t"), FuncArg::Null],
    )
    .is_ok());
    assert!(s.conflicts.is_empty());
}

#[test]
fn verify_constraints_counts_and_gates_commit() {
    let (mut s, _feature) = seed_clean_feature();
    // Introduce a duplicate primary-key value in the working set.
    s.apply_work(
        "t",
        vec!["id".to_string(), "v".to_string()],
        vec!["id".to_string()],
        vec![
            VcRow::new(vec![VcValue::Integer(1), VcValue::Text("a".into())]),
            VcRow::new(vec![VcValue::Integer(1), VcValue::Text("a".into())]),
        ],
        String::new(),
    );
    let count = dolt_verify_constraints(&mut s, &[]).unwrap();
    assert_eq!(count, FuncValue::Integer(1));
    // Commit is refused; --force bypasses.
    dolt_add(&mut s, &[FuncArg::Text("t")]).unwrap();
    assert_eq!(
        dolt_commit(&mut s, &[FuncArg::Text("x")])
            .unwrap_err()
            .to_string(),
        "cannot commit: constraint violations remain"
    );
    assert!(dolt_commit(&mut s, &[FuncArg::Text("--force"), FuncArg::Text("x")]).is_ok());
}
