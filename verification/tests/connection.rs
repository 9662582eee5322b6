//! The state of a connection.

use versioning::conflicts::{ConflictEntry, ConflictKind};
use versioning::connection::{
    apply_resolution_image, dispatch, read_table, table_columns, table_pk, write_table_snapshot,
    ColumnInfo, Reply, VcState,
};
use versioning::func_args::{FuncArg, FuncValue};
use versioning::funcs::dolt_add;
use versioning::model::{CommitId, VersionError};
use versioning::staging::TableSnapshot;
use versioning::values::{VcRow, VcValue};

#[test]
fn dispatch_renders_errors_as_messages() {
    let mut state = VcState::new();
    let value = dispatch(dolt_add(&mut state.store, &[FuncArg::Text("ghost")]));
    assert_eq!(
        value,
        Reply::Failed("table not found: ghost".to_string())
    );

    let busy = dispatch(Err(VersionError::DatabaseLocked));
    assert_eq!(busy, Reply::Busy("database is locked".to_string()));
    assert_eq!(
        dispatch(Ok(FuncValue::Integer(3))),
        Reply::Value(FuncValue::Integer(3))
    );
}

#[test]
fn vc_state_tracks_tables_and_detaches() {
    let mut state = VcState::new();
    state.track_table("t1");
    assert_eq!(state.active_branch().as_deref(), Some("main"));
    assert!(state.guard_write().is_ok());
    let tip = CommitId([0x11; 20]);
    state.open_detached(tip);
    assert!(state.active_branch().is_none());
    assert_eq!(
        state.guard_write().unwrap_err().to_string(),
        "cannot write in detached HEAD state"
    );
    state.open_branch("main").unwrap();
    assert_eq!(state.active_branch().as_deref(), Some("main"));
    assert!(state.guard_write().is_ok());
}

fn info() -> Vec<ColumnInfo> {
    vec![
        ColumnInfo {
            name: Some("b".to_string()),
            rank: 2,
        },
        ColumnInfo {
            name: None,
            rank: 0,
        },
        ColumnInfo {
            name: Some("a".to_string()),
            rank: 1,
        },
        ColumnInfo {
            name: Some("v".to_string()),
            rank: 0,
        },
    ]
}

fn snapshot(rows: Vec<VcRow>) -> TableSnapshot {
    TableSnapshot {
        columns: vec!["a".to_string(), "v".to_string()],
        pk: vec!["a".to_string()],
        rows,
        schema_sql: String::new(),
    }
}

#[test]
fn opening_an_unknown_branch_changes_nothing() {
    let mut state = VcState::new();
    assert_eq!(
        state.open_branch("nope").unwrap_err().to_string(),
        "branch not found: nope"
    );
    assert_eq!(state.active_branch().as_deref(), Some("main"));
}

#[test]
fn tables_are_read_by_rank() {
    assert_eq!(table_columns(&info()), vec!["b", "a", "v"]);
    assert_eq!(table_pk(&info()), vec!["a", "b"]);
    assert_eq!(
        read_table("t", &vec![], vec![], String::new())
            .unwrap_err()
            .to_string(),
        "table not found: t"
    );
    let snap = read_table("t", &info(), vec![], "sql".to_string()).unwrap();
    assert_eq!(snap.pk, vec!["a", "b"]);
    assert_eq!(snap.schema_sql, "sql");
}

#[test]
fn a_snapshot_is_written_row_by_row() {
    let row = VcRow::new(vec![VcValue::Integer(1), VcValue::Null]);
    let steps = write_table_snapshot("t", &snapshot(vec![row.clone()]), false);
    assert_eq!(steps.len(), 2);
    assert_eq!(
        steps[0].sql,
        "CREATE TABLE \"t\" (\"a\" TEXT, \"v\" TEXT)"
    );
    assert_eq!(
        steps[1].sql,
        "INSERT INTO \"t\" (\"a\", \"v\") VALUES (?, ?)"
    );
    assert_eq!(steps[1].args, row.values);
    let steps = write_table_snapshot("t", &snapshot(vec![]), true);
    assert_eq!(steps.len(), 1);
    assert_eq!(steps[0].sql, "DELETE FROM \"t\"");
}

#[test]
fn a_chosen_row_takes_the_place_of_its_key() {
    let pk = vec![VcValue::Integer(1), VcValue::Integer(2)];
    let image = Some(VcRow::new(vec![VcValue::Integer(2), VcValue::Integer(1), VcValue::Null]));
    let steps = apply_resolution_image("t", &info(), &pk, &image).unwrap();
    assert_eq!(
        steps[0].sql,
        "DELETE FROM \"t\" WHERE \"a\" = ? AND \"b\" = ?"
    );
    assert_eq!(steps[0].args, pk);
    assert_eq!(
        steps[1].sql,
        "INSERT INTO \"t\" (\"b\", \"a\", \"v\") VALUES (?, ?, ?)"
    );
    assert_eq!(
        apply_resolution_image("t", &info(), &vec![], &None)
            .unwrap_err()
            .to_string(),
        "failed to write working set to SQL: resolve image for t has 2 pk columns, want 0"
    );
}

#[test]
fn a_failed_write_back_can_be_tried_again() {
    let mut state = VcState::new();
    state.track_table("t");
    assert_eq!(state.tables_to_capture(), vec!["t".to_string()]);
    let row = VcRow::new(vec![VcValue::Integer(1), VcValue::Null]);
    state.sync_sql_to_work(&vec![("t".to_string(), snapshot(vec![row]))]);
    assert_eq!(state.store.work_table("t").unwrap().rows.len(), 1);
    state.store.mark_dirty(&vec!["t".to_string()]);
    let first = state.begin_write_back();
    assert_eq!(first.changes.len(), 1);
    assert!(state.begin_write_back().changes.is_empty());
    state.abandon_write_back(&first);
    let again = state.begin_write_back();
    assert_eq!(again.changes, first.changes);
}

#[test]
fn tables_are_not_read_over_conflicts() {
    let mut state = VcState::new();
    state.track_table("t");
    state.store.conflicts.push(ConflictEntry {
        table: "t".to_string(),
        pk: vec![VcValue::Integer(1)],
        base: None,
        ours: None,
        theirs: None,
        kind: ConflictKind::Rows,
        ours_schema: None,
        theirs_schema: None,
    });
    assert!(state.tables_to_capture().is_empty());
}
