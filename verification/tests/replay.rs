//! Merges, picks, reverts and rebases.

use versioning::commit::{ancestors, CommitStore};
use versioning::conflicts::ResolveSide;
use versioning::model::CommitId;
use versioning::remote_wire::put_snapshot;
use versioning::replay::MergeResult;
use versioning::replay_state::RebaseStep;
use versioning::staging::{TableSnapshot, VcStore};
use versioning::table_merge::Tables;
use versioning::values::{VcRow, VcValue};

/// The tables of a working set by name.
fn listed(work: &Tables) -> Vec<(String, TableSnapshot)> {
    let mut all = work.entries.clone();
    all.sort_by(|a, b| a.0.cmp(&b.0));
    all
}

fn configured_store() -> VcStore {
    let mut s = VcStore::new("main");
    s.config_set("user.name", "Ada");
    s.config_set("user.email", "ada@example.com");
    s
}

/// Commit working content as a commit at the current head, advancing it.
fn commit_work(s: &mut VcStore, msg: &str) -> CommitId {
    let tables: Vec<String> = s.work_tables_content();
    for t in &tables {
        if !s.tables().contains(t) {
            s.track_table(t);
        }
    }
    s.dolt_add(&tables.iter().map(|t| t.as_str()).collect::<Vec<_>>())
        .unwrap();
    s.dolt_commit(msg, None, false, false).unwrap()
}

fn seed_diverged_branches() -> (VcStore, CommitId, CommitId, CommitId) {
    let mut s = configured_store();
    s.apply_work(
        "t",
        vec!["id".to_string(), "v".to_string()],
        vec!["id".to_string()],
        vec![
            VcRow::new(vec![VcValue::Integer(1), VcValue::Text("base".into())]),
            VcRow::new(vec![VcValue::Integer(2), VcValue::Text("keep".into())]),
        ],
        String::new(),
    );
    let seed = commit_work(&mut s, "seed");
    s.create_branch("feature").unwrap();
    // feature side changes row 1 and adds row 3.
    s.checkout("feature").unwrap();
    s.apply_work(
        "t",
        vec!["id".to_string(), "v".to_string()],
        vec!["id".to_string()],
        vec![
            VcRow::new(vec![VcValue::Integer(1), VcValue::Text("theirs".into())]),
            VcRow::new(vec![VcValue::Integer(2), VcValue::Text("keep".into())]),
            VcRow::new(vec![VcValue::Integer(3), VcValue::Text("feat".into())]),
        ],
        String::new(),
    );
    let feature = commit_work(&mut s, "feature work");
    // main side changes row 1 differently and adds row 4.
    s.checkout("main").unwrap();
    s.apply_work(
        "t",
        vec!["id".to_string(), "v".to_string()],
        vec!["id".to_string()],
        vec![
            VcRow::new(vec![VcValue::Integer(1), VcValue::Text("ours".into())]),
            VcRow::new(vec![VcValue::Integer(2), VcValue::Text("keep".into())]),
            VcRow::new(vec![VcValue::Integer(4), VcValue::Text("main".into())]),
        ],
        String::new(),
    );
    let main = commit_work(&mut s, "main work");
    (s, seed, feature, main)
}

fn seed_clean_feature() -> (VcStore, CommitId, CommitId) {
    let mut s = configured_store();
    s.apply_work(
        "t",
        vec!["id".to_string(), "v".to_string()],
        vec!["id".to_string()],
        vec![
            VcRow::new(vec![VcValue::Integer(1), VcValue::Text("a".into())]),
            VcRow::new(vec![VcValue::Integer(2), VcValue::Text("b".into())]),
        ],
        String::new(),
    );
    commit_work(&mut s, "seed");
    s.create_branch("feature").unwrap();
    s.checkout("feature").unwrap();
    s.apply_work(
        "t",
        vec!["id".to_string(), "v".to_string()],
        vec!["id".to_string()],
        vec![
            VcRow::new(vec![VcValue::Integer(1), VcValue::Text("a".into())]),
            VcRow::new(vec![VcValue::Integer(2), VcValue::Text("b".into())]),
            VcRow::new(vec![VcValue::Integer(3), VcValue::Text("feat".into())]),
        ],
        String::new(),
    );
    let feature = commit_work(&mut s, "feature work");
    s.checkout("main").unwrap();
    s.apply_work(
        "t",
        vec!["id".to_string(), "v".to_string()],
        vec!["id".to_string()],
        vec![
            VcRow::new(vec![VcValue::Integer(1), VcValue::Text("a".into())]),
            VcRow::new(vec![VcValue::Integer(2), VcValue::Text("b".into())]),
            VcRow::new(vec![VcValue::Integer(4), VcValue::Text("main".into())]),
        ],
        String::new(),
    );
    let main = commit_work(&mut s, "main work");
    (s, feature, main)
}

#[test]
fn merge_branch_clean_fast_path_takes_ours() {
    // feature has not moved past base, so ours wins with zero conflicts.
    let mut s = configured_store();
    s.apply_work(
        "t",
        vec!["id".to_string(), "v".to_string()],
        vec!["id".to_string()],
        vec![VcRow::new(vec![
            VcValue::Integer(1),
            VcValue::Text("a".into()),
        ])],
        String::new(),
    );
    commit_work(&mut s, "seed");
    s.create_branch("feature").unwrap();
    s.checkout("feature").unwrap();
    s.apply_work(
        "t",
        vec!["id".to_string(), "v".to_string()],
        vec!["id".to_string()],
        vec![VcRow::new(vec![
            VcValue::Integer(1),
            VcValue::Text("f".into()),
        ])],
        String::new(),
    );
    commit_work(&mut s, "feat");
    s.checkout("main").unwrap();
    match s.merge_branch("feature", false, false, None).unwrap() {
        MergeResult::Committed(_) => {}
        other => panic!("expected committed, got {other:?}"),
    }
    assert!(s.conflicts.is_empty());
}

#[test]
fn merge_branch_divergent_row_is_conflict_and_resolvable() {
    let (mut s, _seed, _feature, _main) = seed_diverged_branches();
    let result = s.merge_branch("feature", false, false, None).unwrap();
    let MergeResult::Conflicts { rows, tables } = result else {
        panic!("expected conflict, got {result:?}");
    };
    assert_eq!(rows, 1);
    assert_eq!(tables, 1);
    assert_eq!(s.conflicts.len(), 1);
    assert_eq!(s.conflicts[0].table, "t");
    // Commit is refused while the conflict remains.
    s.set_now(10);
    assert_eq!(
        s.dolt_commit("x", None, false, false)
            .unwrap_err()
            .to_string(),
        "cannot commit: unresolved merge conflicts"
    );
    // Resolve to theirs unblocks commit.
    let entry = s.conflict_entries()[0].clone();
    s.resolve_conflict("t", &entry.pk, ResolveSide::Theirs)
        .unwrap();
    assert!(s.conflicts.is_empty());
    let id = s.dolt_commit("merged", None, false, false).unwrap();
    assert!(id != CommitId([0; 20]));
    // The merge commit carries both parents.
    assert_eq!(s.commits.get_commit(&id).unwrap().parents.len(), 2);
}

#[test]
fn merge_no_commit_stops_before_commit() {
    let (mut s, _feature, _main) = seed_clean_feature();
    let result = s.merge_branch("feature", false, true, None).unwrap();
    assert_eq!(result, MergeResult::Applied);
    assert!(s.merge_state.is_some());
    let head = s.head_commit().unwrap();
    s.set_now(11);
    let id = s.dolt_commit("merged", None, false, false).unwrap();
    assert!(id != head);
    assert_eq!(s.commits.get_commit(&id).unwrap().parents.len(), 2);
}

#[test]
fn merge_abort_restores_working_set_and_drops_conflicts() {
    let (mut s, _seed, _feature, _main) = seed_diverged_branches();
    let work_before = s.work.clone();
    let result = s.merge_branch("feature", false, false, None).unwrap();
    assert!(matches!(result, MergeResult::Conflicts { .. }));
    assert_eq!(s.conflicts.len(), 1);
    s.merge_abort().unwrap();
    assert!(s.conflicts.is_empty());
    assert_eq!(listed(&s.work), listed(&work_before));
    assert!(s.merge_state.is_none());
}

#[test]
fn merge_abort_without_merge_errors() {
    let mut s = configured_store();
    assert_eq!(
        s.merge_abort().unwrap_err().to_string(),
        "no merge in progress"
    );
}

#[test]
fn merge_status_rows_reflect_conflicts() {
    let (mut s, _seed, _feature, _main) = seed_diverged_branches();
    s.merge_branch("feature", false, false, None).unwrap();
    let rows = s.merge_status_rows();
    assert_eq!(rows.len(), 1);
    assert_eq!(rows[0].table, "t");
    assert_eq!(rows[0].rows_conflicted, 1);
    assert_eq!(rows[0].state, "conflicted");
}

#[test]
fn cherry_pick_applies_commit_and_commits() {
    let (mut s, feature, _main) = seed_clean_feature();
    match s.cherry_pick(&feature.to_hex(), None).unwrap() {
        MergeResult::Committed(id) => {
            let commit = s.commits.get_commit(&id).unwrap();
            assert_eq!(commit.meta.message, "feature work");
            assert_eq!(commit.parents.len(), 1);
        }
        other => panic!("expected committed, got {other:?}"),
    }
    // The replayed table has the feature row.
    let tip = s.head_commit().unwrap();
    let rows = s.table_rows("t", &tip).unwrap();
    assert!(rows.iter().any(|r| r.values.contains(&VcValue::Integer(3))));
}

#[test]
fn cherry_pick_merge_commit_needs_parent() {
    let mut s = configured_store();
    s.apply_work(
        "t",
        vec!["id".to_string(), "v".to_string()],
        vec!["id".to_string()],
        vec![VcRow::new(vec![
            VcValue::Integer(1),
            VcValue::Text("a".into()),
        ])],
        String::new(),
    );
    commit_work(&mut s, "seed");
    s.create_branch("other").unwrap();
    s.checkout("other").unwrap();
    s.apply_work(
        "t",
        vec!["id".to_string(), "v".to_string()],
        vec!["id".to_string()],
        vec![VcRow::new(vec![
            VcValue::Integer(1),
            VcValue::Text("b".into()),
        ])],
        String::new(),
    );
    commit_work(&mut s, "other work");
    s.checkout("main").unwrap();
    s.merge_branch("other", false, false, None).unwrap();
    let tip = s.head_commit().unwrap();
    assert_eq!(s.commits.get_commit(&tip).unwrap().parents.len(), 2);
    let err = s.cherry_pick(&tip.to_hex(), None).unwrap_err();
    assert_eq!(
        err.to_string(),
        "cherry-pick of merge commit needs -m PARENT (got 2 parents)"
    );
}

#[test]
fn revert_inverts_a_commit() {
    let (mut s, feature, main) = seed_clean_feature();
    // Reverting main's own commit removes the row main added.
    match s.revert(&main.to_hex(), None).unwrap() {
        MergeResult::Committed(id) => {
            let commit = s.commits.get_commit(&id).unwrap();
            assert_eq!(commit.meta.message, "Revert \"main work\"");
        }
        other => panic!("expected committed, got {other:?}"),
    }
    let tip = s.head_commit().unwrap();
    let rows = s.table_rows("t", &tip).unwrap();
    assert!(rows
        .iter()
        .all(|r| r.values.contains(&VcValue::Integer(1))
            || r.values.contains(&VcValue::Integer(2))));
    assert!(rows
        .iter()
        .all(|r| !r.values.contains(&VcValue::Integer(4))));
    let _ = feature;
}

#[test]
fn rebase_onto_replays_picks() {
    let (mut s, _feature, _main) = seed_clean_feature();
    // feature has one commit on top of seed; main has one on top of seed.
    // Replaying feature onto main applies its commit cleanly.
    s.checkout("feature").unwrap();
    let head = s.head_commit().unwrap();
    let new_head = s.rebase_onto("main").unwrap();
    assert!(new_head != head);
    // The replayed chain now sits on main.
    let chain = ancestors(&s.commits, new_head).unwrap();
    assert!(chain.contains(&new_head));
    assert!(s.rebase_state.is_none());
    assert!(s.conflicts.is_empty());
}

#[test]
fn rebase_conflict_is_atomic_and_continue_resumes() {
    let (mut s, _seed, _feature, _main) = seed_diverged_branches();
    // The feature branch changed row 1 from "theirs"; main changed it to
    // "ours". Replaying feature's commit onto main conflicts.
    s.checkout("feature").unwrap();
    let head_before = s.head_commit().unwrap();
    let err = s.rebase_onto("main").unwrap_err();
    assert!(err.to_string().starts_with("rebase conflict at "));
    assert!(err.to_string().ends_with(": resolve and --continue"));
    // Atomic: the branch tip never moved.
    assert_eq!(s.head_commit().unwrap(), head_before);
    assert!(s.rebase_state.is_some());
    assert_eq!(s.conflicts.len(), 1);
    // Resolve then continue.
    let entry = s.conflict_entries()[0].clone();
    s.resolve_conflict("t", &entry.pk, ResolveSide::Ours)
        .unwrap();
    let new_head = s.rebase_continue().unwrap();
    assert!(s.rebase_state.is_none());
    let chain = ancestors(&s.commits, new_head).unwrap();
    assert!(chain.contains(&new_head));
}

#[test]
fn rebase_continue_without_rebase_errors() {
    let mut s = configured_store();
    assert_eq!(
        s.rebase_continue().unwrap_err().to_string(),
        "no rebase in progress"
    );
    assert_eq!(
        s.rebase_abort().unwrap_err().to_string(),
        "no rebase in progress"
    );
}

#[test]
fn rebase_abort_restores_original_head() {
    let (mut s, _seed, _feature, _main) = seed_diverged_branches();
    s.checkout("feature").unwrap();
    let head_before = s.head_commit().unwrap();
    assert!(s.rebase_onto("main").is_err());
    s.rebase_abort().unwrap();
    assert_eq!(s.head_commit().unwrap(), head_before);
    assert!(s.conflicts.is_empty());
    assert!(s.rebase_state.is_none());
}

#[test]
fn merge_bails_on_unparsable_schema_sql() {
    let mut s = configured_store();
    s.apply_work(
        "t",
        vec!["id".to_string(), "v".to_string()],
        vec!["id".to_string()],
        vec![VcRow::new(vec![
            VcValue::Integer(1),
            VcValue::Text("a".into()),
        ])],
        String::new(),
    );
    commit_work(&mut s, "seed");
    s.create_branch("feature").unwrap();
    s.checkout("feature").unwrap();
    s.apply_work(
        "t",
        vec!["id".to_string(), "v".to_string()],
        vec!["id".to_string()],
        vec![VcRow::new(vec![
            VcValue::Integer(1),
            VcValue::Text("b".into()),
        ])],
        String::new(),
    );
    commit_work(&mut s, "feature work");
    s.checkout("main").unwrap();
    // Corrupt the committed snapshot's schema SQL on the main side: a
    // non-empty string that will not parse must abort the merge rather
    // than silently fabricate a TEXT schema.
    let main_tip = s.head_commit().unwrap();
    let snap = s.snapshots.get(&main_tip).unwrap().get(&"t".to_string()).unwrap().clone();
    let mut broken = snap;
    broken.schema_sql = "NOT A CREATE TABLE".to_string();
    put_snapshot(&mut s.snapshots, main_tip, "t".to_string(), broken);
    let err = s.merge_branch("feature", false, false, None).unwrap_err();
    assert_eq!(err.to_string(), "invalid schema for table: t");
}

#[test]
fn checkout_refused_while_merge_open() {
    let (mut s, _seed, _feature, _main) = seed_diverged_branches();
    let result = s.merge_branch("feature", false, false, None).unwrap();
    assert!(matches!(result, MergeResult::Conflicts { .. }));
    let err = s.checkout("feature").unwrap_err();
    assert_eq!(err.to_string(), "merge already in progress");
}

#[test]
fn rebase_abort_restores_pre_rebase_work_after_resolve() {
    let (mut s, _seed, _feature, _main) = seed_diverged_branches();
    s.checkout("feature").unwrap();
    // The working set is that of feature.
    s.sync_work_to_head();
    let work_before = s.work.clone();
    assert!(s.rebase_onto("main").is_err());
    // Resolving a conflicted row mutates the working set; --abort must put
    // the pre-rebase working set back regardless.
    let entry = s.conflict_entries()[0].clone();
    s.resolve_conflict("t", &entry.pk, ResolveSide::Ours)
        .unwrap();
    assert_ne!(listed(&s.work), listed(&work_before));
    s.rebase_abort().unwrap();
    assert_eq!(listed(&s.work), listed(&work_before));
    assert!(s.conflicts.is_empty());
    assert!(s.rebase_state.is_none());
}

#[test]
fn second_merge_while_conflicted_is_refused_and_work_preserved() {
    let (mut s, _seed, _feature, _main) = seed_diverged_branches();
    let result = s.merge_branch("feature", false, false, None).unwrap();
    assert!(matches!(result, MergeResult::Conflicts { .. }));
    let work_before = s.work.clone();
    let err = s.merge_branch("feature", false, false, None).unwrap_err();
    assert_eq!(err.to_string(), "merge already in progress");
    assert_eq!(listed(&s.work), listed(&work_before));
    assert_eq!(s.conflicts.len(), 1);
}

#[test]
fn cherry_pick_refused_while_conflicted() {
    let (mut s, _seed, feature, _main) = seed_diverged_branches();
    let result = s.merge_branch("feature", false, false, None).unwrap();
    assert!(matches!(result, MergeResult::Conflicts { .. }));
    let err = s.cherry_pick(&feature.to_hex(), None).unwrap_err();
    assert_eq!(err.to_string(), "merge already in progress");
}

#[test]
fn merge_with_m_parent_selector_uses_chosen_parent_base() {
    let mut s = configured_store();
    s.apply_work(
        "t",
        vec!["id".to_string(), "v".to_string()],
        vec!["id".to_string()],
        vec![VcRow::new(vec![
            VcValue::Integer(1),
            VcValue::Text("seed".into()),
        ])],
        String::new(),
    );
    commit_work(&mut s, "seed");
    // feature commits two rows on top of seed.
    s.create_branch("feature").unwrap();
    s.checkout("feature").unwrap();
    s.apply_work(
        "t",
        vec!["id".to_string(), "v".to_string()],
        vec!["id".to_string()],
        vec![
            VcRow::new(vec![VcValue::Integer(1), VcValue::Text("seed".into())]),
            VcRow::new(vec![VcValue::Integer(2), VcValue::Text("f1".into())]),
        ],
        String::new(),
    );
    let c1 = commit_work(&mut s, "f1");
    s.apply_work(
        "t",
        vec!["id".to_string(), "v".to_string()],
        vec!["id".to_string()],
        vec![
            VcRow::new(vec![VcValue::Integer(1), VcValue::Text("seed".into())]),
            VcRow::new(vec![VcValue::Integer(2), VcValue::Text("f1".into())]),
            VcRow::new(vec![VcValue::Integer(3), VcValue::Text("f2".into())]),
        ],
        String::new(),
    );
    commit_work(&mut s, "f2");
    // main adds one row, then merges feature into a merge commit.
    s.checkout("main").unwrap();
    s.apply_work(
        "t",
        vec!["id".to_string(), "v".to_string()],
        vec!["id".to_string()],
        vec![
            VcRow::new(vec![VcValue::Integer(1), VcValue::Text("seed".into())]),
            VcRow::new(vec![VcValue::Integer(4), VcValue::Text("main".into())]),
        ],
        String::new(),
    );
    commit_work(&mut s, "main work");
    let merge_commit = match s.merge_branch("feature", false, false, None).unwrap() {
        MergeResult::Committed(id) => id,
        other => panic!("expected committed, got {other:?}"),
    };
    let parents = s.get_commit(&merge_commit).unwrap().parents;
    assert_eq!(parents.len(), 2);
    // A third branch merges the merge commit with -m 1, using parent 1
    // (main's own tip) as the base: a clean fast-path merge.
    s.create_branch("topic").unwrap();
    s.checkout("topic").unwrap();
    let result = s
        .merge_branch(&merge_commit.to_hex(), false, false, Some(0))
        .unwrap();
    assert!(matches!(result, MergeResult::Committed(_)));
    let _ = c1;
}

#[test]
fn rebase_plan_pause_edit_drop_replays_single_commit() {
    let mut s = configured_store();
    s.apply_work(
        "t",
        vec!["id".to_string(), "v".to_string()],
        vec!["id".to_string()],
        vec![VcRow::new(vec![
            VcValue::Integer(1),
            VcValue::Text("a".into()),
        ])],
        String::new(),
    );
    commit_work(&mut s, "seed");
    s.create_branch("feature").unwrap();
    s.checkout("feature").unwrap();
    s.apply_work(
        "t",
        vec!["id".to_string(), "v".to_string()],
        vec!["id".to_string()],
        vec![
            VcRow::new(vec![VcValue::Integer(1), VcValue::Text("a".into())]),
            VcRow::new(vec![VcValue::Integer(2), VcValue::Text("first".into())]),
        ],
        String::new(),
    );
    let c1 = commit_work(&mut s, "first");
    s.apply_work(
        "t",
        vec!["id".to_string(), "v".to_string()],
        vec!["id".to_string()],
        vec![
            VcRow::new(vec![VcValue::Integer(1), VcValue::Text("a".into())]),
            VcRow::new(vec![VcValue::Integer(2), VcValue::Text("first".into())]),
            VcRow::new(vec![VcValue::Integer(3), VcValue::Text("second".into())]),
        ],
        String::new(),
    );
    let c2 = commit_work(&mut s, "second");
    s.checkout("main").unwrap();
    let main_tip = s.head_commit().unwrap();
    s.checkout("feature").unwrap();
    let head0 = s.head_commit().unwrap();
    // Pause with the plan, edit it to drop the first commit, then continue.
    let count = s.rebase_plan("main").unwrap();
    assert_eq!(count, 2);
    let steps = vec![RebaseStep::Drop(c1), RebaseStep::Pick(c2)];
    s.rebase_edit_plan(steps).unwrap();
    let new_head = s.rebase_continue().unwrap();
    assert_ne!(new_head, head0);
    // Only one replay commit sits on main's tip: c1 was dropped.
    let commit = s.get_commit(&new_head).unwrap();
    assert_eq!(commit.meta.message, "second");
    assert_eq!(commit.parents, vec![main_tip]);
    let rows = s.table_rows("t", &new_head).unwrap();
    assert!(rows.iter().any(|r| r.values.contains(&VcValue::Integer(3))));
    assert!(rows
        .iter()
        .all(|r| !r.values.contains(&VcValue::Integer(2))));
}

#[test]
fn rebase_squash_folds_messages_into_one_commit() {
    let mut s = configured_store();
    s.apply_work(
        "t",
        vec!["id".to_string(), "v".to_string()],
        vec!["id".to_string()],
        vec![VcRow::new(vec![
            VcValue::Integer(1),
            VcValue::Text("a".into()),
        ])],
        String::new(),
    );
    commit_work(&mut s, "seed");
    s.create_branch("feature").unwrap();
    s.checkout("feature").unwrap();
    s.apply_work(
        "t",
        vec!["id".to_string(), "v".to_string()],
        vec!["id".to_string()],
        vec![VcRow::new(vec![
            VcValue::Integer(1),
            VcValue::Text("b".into()),
        ])],
        String::new(),
    );
    let c1 = commit_work(&mut s, "first");
    s.apply_work(
        "t",
        vec!["id".to_string(), "v".to_string()],
        vec!["id".to_string()],
        vec![VcRow::new(vec![
            VcValue::Integer(1),
            VcValue::Text("c".into()),
        ])],
        String::new(),
    );
    let c2 = commit_work(&mut s, "second");
    // Rebase with a manual squash plan onto main.
    s.checkout("main").unwrap();
    let main_tip = s.head_commit().unwrap();
    s.checkout("feature").unwrap();
    let steps = vec![RebaseStep::Pick(c1), RebaseStep::Squash(c2)];
    let head0 = s.head_commit().unwrap();
    let work = s.work.clone();
    let new_head = s
        .execute_rebase(steps, main_tip, head0, None, work)
        .unwrap();
    let commit = s.commits.get_commit(&new_head).unwrap();
    assert_eq!(commit.meta.message, "first\n\nsecond");
    assert_eq!(commit.parents, vec![main_tip]);
}

#[test]
fn ours_deleted_theirs_survives_in_schema_conflict() {
    let mut s = configured_store();
    // Seed: base has table "t" with schema SQL.
    s.apply_work(
        "t",
        vec!["id".to_string(), "v".to_string()],
        vec!["id".to_string()],
        vec![VcRow::new(vec![
            VcValue::Integer(1),
            VcValue::Text("base".into()),
        ])],
        "CREATE TABLE t (id INTEGER PRIMARY KEY, v TEXT)".to_string(),
    );
    let seed = commit_work(&mut s, "seed");
    s.create_branch("feature").unwrap();
    // Feature modifies the table (adds a column).
    s.checkout("feature").unwrap();
    s.apply_work(
        "t",
        vec!["id".to_string(), "v".to_string(), "extra".to_string()],
        vec!["id".to_string()],
        vec![VcRow::new(vec![
            VcValue::Integer(1),
            VcValue::Text("base".into()),
            VcValue::Text("feat".into()),
        ])],
        "CREATE TABLE t (id INTEGER PRIMARY KEY, v TEXT, extra TEXT)".to_string(),
    );
    commit_work(&mut s, "feature work");
    // Main drops the table and creates a commit without "t", so the
    // merge base (seed) has "t" but main's HEAD snapshot does not.
    s.checkout("main").unwrap();
    s.work.remove(&"t".to_string());
    // Add a dummy table so there's something to commit.
    s.apply_work(
        "dummy",
        vec!["id".to_string()],
        vec!["id".to_string()],
        vec![VcRow::new(vec![VcValue::Integer(1)])],
        String::new(),
    );
    if !s.tables().contains(&"dummy".to_string()) {
        s.track_table("dummy");
    }
    let main_tables: Vec<String> = s.work_tables_content();
    s.dolt_add(&main_tables.iter().map(|t| t.as_str()).collect::<Vec<_>>())
        .unwrap();
    s.set_now(10);
    s.dolt_commit("drop t", None, false, false).unwrap();
    // Merge feature into main: base(seed) has "t", main deleted it,
    // theirs modified it → schema conflict.
    let result = s.merge_branch("feature", false, false, None);
    match result.unwrap() {
        MergeResult::SchemaConflict { table, detail } => {
            assert_eq!(table, "t");
            assert!(detail.contains("table deleted on ours"));
        }
        other => panic!("expected schema conflict, got {other:?}"),
    }
    // The conflict entry carries theirs_schema so --theirs can restore it.
    let entries = s.conflict_entries();
    assert_eq!(entries.len(), 1);
    assert!(
        entries[0].theirs_schema.is_some(),
        "theirs_schema must be preserved for --theirs resolution"
    );
    let theirs_snap = entries[0].theirs_schema.as_ref().unwrap();
    assert!(
        theirs_snap.schema_sql.contains("extra"),
        "theirs schema must carry the modified table"
    );
    let _ = seed;
}
