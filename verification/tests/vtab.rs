//! The virtual tables.

use versioning::conflicts::{ConflictEntry, ConflictKind};
use versioning::constraints::{Violation, ViolationKind};
use versioning::model::CommitId;
use versioning::staging::VcStore;
use versioning::values::{VcRow, VcValue};
use versioning::vtab::{
    bind_ref_args, bind_ref_cols, blob_text, build_conflicts, build_conflicts_t,
    build_merge_status, build_violations, build_violations_t, compare_args, conflicts_schema,
    conflicts_table_schema, conflicts_width, diff_cells, diff_refs, fixed_violations_schema,
    join_values, log_scan, merge_status_schema, module_table, patch_args, quote_ident, retain,
    table_ref, DiffType, LogScan, Piece, ResultCode, TableDiffRow, VcCursor, VcKind, VcTable,
};
use versioning::vtab_plan::{
    plan_blame_probe, plan_equality, plan_per_table_refs, VcConstraint, VcOp,
};

fn constraint(column: u32) -> VcConstraint {
    VcConstraint {
        column,
        op: VcOp::Eq,
        usable: true,
    }
}

fn failed_cursor() -> VcCursor {
    VcCursor {
        kind: VcKind::Log,
        table: String::new(),
        rows: Vec::new(),
        pos: 0,
        error: Some("branch not found: nope".to_string()),
        delivered: false,
    }
}

#[test]
fn log_best_index_picks_hash_probe() {
    let info = VcTable::new(VcKind::Log)
        .best_index(&[constraint(0)], &[])
        .unwrap();
    assert_eq!(info.idx_num, 1);
    assert_eq!(info.constraint_usages.len(), 1);
    assert_eq!(info.constraint_usages[0].argv_index, Some(1));
    assert!(info.constraint_usages[0].omit);
}

#[test]
fn log_best_index_ignores_non_eq() {
    let info = VcTable::new(VcKind::Log)
        .best_index(
            &[VcConstraint {
                column: 0,
                op: VcOp::Other,
                usable: true,
            }],
            &[],
        )
        .unwrap();
    assert_eq!(info.idx_num, 0);
}

#[test]
fn stat_best_index_consumes_both_refs() {
    let info = VcTable::new(VcKind::DiffStat)
        .best_index(&[constraint(12), constraint(13)], &[])
        .unwrap();
    assert_eq!(info.idx_num, 1);
    assert_eq!(info.idx_str.as_deref(), Some("refs:12,13"));
    let rows: Vec<u32> = info
        .constraint_usages
        .iter()
        .filter_map(|u| u.argv_index)
        .collect();
    assert_eq!(rows, vec![1, 2]);
}

#[test]
fn cursor_delivers_exact_error_message() {
    let cursor = failed_cursor();
    assert!(!cursor.eof());
    assert_eq!(
        cursor.column(0).unwrap_err(),
        "branch not found: nope".to_string()
    );
}

#[test]
fn cursor_error_fires_on_every_column() {
    let cursor = failed_cursor();
    for idx in 0..6 {
        assert_eq!(
            cursor.column(idx).unwrap_err(),
            "branch not found: nope".to_string()
        );
    }
    assert!(!cursor.eof());
}

#[test]
fn cursor_without_state_reads_empty() {
    let mut cursor = VcTable::new(VcKind::Log).open();
    assert_eq!(cursor.filter(Ok(Vec::new())), ResultCode::EOF);
    assert!(cursor.eof());
    let mut diff = VcTable::new(VcKind::Diff).open();
    assert_eq!(diff.filter(Ok(Vec::new())), ResultCode::EOF);
    assert!(diff.eof());
}

#[test]
fn cursor_next_ends_at_last_row() {
    let mut cursor = VcCursor {
        kind: VcKind::Log,
        table: String::new(),
        rows: vec![vec![VcValue::Integer(1)], vec![VcValue::Integer(2)]],
        pos: 0,
        error: None,
        delivered: false,
    };
    assert!(!cursor.eof());
    assert_eq!(cursor.next(), ResultCode::OK);
    assert_eq!(cursor.next(), ResultCode::EOF);
    assert!(cursor.eof());
}

#[test]
fn bind_ref_args_maps_positional_args() {
    let args = vec![Some("a".to_string()), Some("b".to_string())];
    assert_eq!(
        bind_ref_args("refs:12,13", &args),
        vec!["a".to_string(), "b".to_string()]
    );
    assert!(bind_ref_args("", &args).is_empty());
}

fn texts(args: &[&str]) -> Vec<Option<String>> {
    args.iter().map(|a| Some(a.to_string())).collect()
}

#[test]
fn plans_take_one_or_both_sides() {
    let free = plan_equality(&[constraint(3)], 0, 8);
    assert_eq!(free.idx_num, 0);
    assert_eq!(free.cost, 1008);
    assert_eq!(free.omit, vec![false]);
    let bound = plan_equality(&[constraint(3), constraint(0), constraint(0)], 0, 8);
    assert_eq!(bound.idx_num, 1);
    assert_eq!(bound.omit, vec![false, true, false]);
    assert_eq!(bound.argv, vec![0]);
    assert_eq!(bound.cost, 10);
}

#[test]
fn per_table_plans_take_the_highest_columns() {
    let cs = [constraint(1), constraint(7), constraint(6)];
    let plan = plan_per_table_refs(&cs, 2, "refs", 64);
    assert_eq!(plan.omit, vec![false, true, true]);
    assert_eq!(plan.argv, vec![7, 6]);
    assert_eq!(plan.idx_str.as_deref(), Some("refs:7,6"));
    assert_eq!(plan_per_table_refs(&[], 2, "refs", 64).cost, 1_000_000_000_000);
    let ties = [constraint(5), constraint(5)];
    assert_eq!(
        plan_per_table_refs(&ties, 1, "start", 64).omit,
        vec![true, false]
    );
}

#[test]
fn blame_is_looked_up_by_its_first_column() {
    let plan = plan_blame_probe(&[constraint(0)], 64);
    assert_eq!(plan.idx_str.as_deref(), Some("pk:0"));
    assert_eq!(plan.rows, 1);
    assert_eq!(plan_blame_probe(&[constraint(1)], 64).rows, 64);
}

#[test]
fn remotes_have_no_plan_of_their_own() {
    assert!(VcTable::new(VcKind::Remotes).best_index(&[], &[]).is_none());
}

#[test]
fn references_follow_their_columns() {
    assert_eq!(
        bind_ref_cols("refs:7,x,+6", &texts(&["b", "a", "c"])),
        vec![(7, "b".to_string()), (6, "a".to_string())]
    );
    assert_eq!(
        diff_refs("refs:7,6", &texts(&["b", "a"])),
        Some(("a".to_string(), "b".to_string()))
    );
    assert_eq!(diff_refs("refs:7", &texts(&["b"])), None);
    assert_eq!(
        table_ref("start:2,9", &texts(&["x", "y"])),
        Some("y".to_string())
    );
    assert_eq!(table_ref("", &texts(&["x"])), None);
}

#[test]
fn comparisons_need_both_sides() {
    assert_eq!(
        compare_args("refs:12,13", &texts(&["a", "b"])),
        Some(("a".to_string(), "b".to_string(), None))
    );
    assert_eq!(
        compare_args("refs:12,13,14", &texts(&["a", "b", "t"])),
        Some(("a".to_string(), "b".to_string(), Some("t".to_string())))
    );
    assert_eq!(compare_args("refs:12", &texts(&["a"])), None);
    assert_eq!(compare_args("refs:12,13", &texts(&["a", ""])), None);
}

#[test]
fn patches_take_ranges() {
    assert_eq!(
        patch_args("refs:6", &texts(&["a..b"])),
        Some(("a..b".to_string(), String::new(), None))
    );
    assert_eq!(
        patch_args("refs:6", &texts(&["a"])),
        Some(("a".to_string(), "a".to_string(), None))
    );
    assert_eq!(patch_args("", &texts(&["a"])), None);
}

#[test]
fn a_fresh_branch_has_no_log() {
    let mut store = VcStore::new("main");
    assert_eq!(log_scan(&store, 0, &vec![]), LogScan::Nothing);
    assert_eq!(
        log_scan(&store, 1, &texts(&["abc"])),
        LogScan::Hash("abc".to_string())
    );
    assert_eq!(
        log_scan(&store, 2, &texts(&["dev"])),
        LogScan::Revision("dev".to_string())
    );
    store.open_detached(CommitId([1; 20]));
    assert_eq!(log_scan(&store, 0, &vec![]), LogScan::Head);
}

#[test]
fn rows_are_kept_by_their_field() {
    let rows = vec!["x".to_string(), "y".to_string(), "z".to_string()];
    let fields = vec!["a".to_string(), "b".to_string(), "a".to_string()];
    assert_eq!(
        retain(&rows, &fields, &texts(&["a"]), 0),
        vec!["x".to_string(), "z".to_string()]
    );
    assert_eq!(retain(&rows, &fields, &vec![None], 0), rows);
}

#[test]
fn names_are_quoted() {
    assert_eq!(quote_ident("a\"b"), "\"a\"\"b\"");
    assert_eq!(module_table("dolt_history_orders"), "orders");
    assert_eq!(module_table("dolt_constraint_violations_t"), "t");
    assert_eq!(module_table("plain"), "plain");
}

#[test]
fn conflict_tables_declare_all_sides() {
    assert_eq!(
        conflicts_table_schema("t", &vec!["id".to_string()]),
        "CREATE TABLE dolt_conflicts_t (\"id\" TEXT, \"base_id\" TEXT, \"our_id\" TEXT, \"their_id\" TEXT, conflict_type TEXT)"
    );
    assert_eq!(conflicts_width(&vec!["id".to_string()]), 5);
    assert!(fixed_violations_schema().starts_with("CREATE TABLE dolt_constraint_violations"));
    assert!(conflicts_schema().starts_with("CREATE TABLE dolt_conflicts "));
    assert!(merge_status_schema().starts_with("CREATE TABLE dolt_merge_status "));
}

#[test]
fn values_are_shown_as_text() {
    assert_eq!(blob_text(&[0x00, 0xff]), "X'00ff'");
    assert_eq!(
        join_values(&vec![
            VcValue::Integer(-7),
            VcValue::Null,
            VcValue::Real(1.5f64.to_bits())
        ]),
        vec![
            Piece::Said("-7".to_string()),
            Piece::Said(",".to_string()),
            Piece::Said("NULL".to_string()),
            Piece::Said(",".to_string()),
            Piece::Real(1.5f64.to_bits())
        ]
    );
}

fn conflicted() -> VcStore {
    let mut store = VcStore::new("main");
    store.conflicts.push(ConflictEntry {
        table: "t".to_string(),
        pk: vec![VcValue::Integer(1)],
        base: None,
        ours: Some(VcRow::new(vec![VcValue::Integer(1)])),
        theirs: None,
        kind: ConflictKind::Rows,
        ours_schema: None,
        theirs_schema: None,
    });
    store.violations.push(Violation {
        table: "u".to_string(),
        kind: ViolationKind::Unique,
        row_pk: vec![VcValue::Text("k".to_string())],
        detail: "twice".to_string(),
    });
    store
}

#[test]
fn conflicts_are_listed_by_table() {
    let store = conflicted();
    let lines = build_conflicts(&store, 0, &vec![]);
    assert_eq!(lines.len(), 1);
    assert_eq!(lines[0].kind, "rows");
    assert_eq!(lines[0].ours, vec![Piece::Said("1".to_string())]);
    assert!(lines[0].base.is_empty());
    assert!(build_conflicts(&store, 1, &texts(&["other"])).is_empty());
    let rows = build_conflicts_t(&store, "t", 5);
    assert_eq!(
        rows,
        vec![vec![
            VcValue::Integer(1),
            VcValue::Integer(1),
            VcValue::Text("rows".to_string()),
            VcValue::Null,
            VcValue::Null
        ]]
    );
    assert!(build_merge_status(&store).is_empty());
}

#[test]
fn violations_are_listed_by_table() {
    let store = conflicted();
    let lines = build_violations(&store, 0, &vec![]);
    assert_eq!(lines[0].kind, "unique");
    assert_eq!(lines[0].details, "twice");
    assert_eq!(build_violations_t(&store, "u").len(), 1);
    assert!(build_violations_t(&store, "t").is_empty());
}

#[test]
fn changed_rows_fill_both_sides() {
    let row = TableDiffRow {
        to: vec![VcValue::Integer(1), VcValue::Integer(2)],
        to_commit: "tc".to_string(),
        to_date: "td".to_string(),
        from: vec![],
        from_commit: "fc".to_string(),
        from_date: "fd".to_string(),
        diff_type: DiffType::Added,
    };
    let cells = diff_cells(&row, "a", "b");
    assert_eq!(cells.len(), 11);
    assert_eq!(cells[4], VcValue::Null);
    assert_eq!(cells[8], VcValue::Text("added".to_string()));
    assert_eq!(cells[10], VcValue::Text("b".to_string()));
}

#[test]
fn a_scan_reads_each_row_once() {
    let mut cursor = VcTable::of(VcKind::AtT, "t".to_string()).open();
    let rows = vec![vec![VcValue::Integer(1)], vec![VcValue::Integer(2)]];
    assert_eq!(cursor.filter(Ok(rows)), ResultCode::OK);
    assert_eq!(cursor.column(0), Ok(VcValue::Integer(1)));
    assert_eq!(cursor.rowid(), 1);
    assert_eq!(cursor.next(), ResultCode::OK);
    assert_eq!(cursor.column(0), Ok(VcValue::Integer(2)));
    assert_eq!(cursor.column(9), Ok(VcValue::Null));
    assert_eq!(cursor.next(), ResultCode::EOF);
    assert!(cursor.eof());
    assert_eq!(cursor.filter(Err("no".to_string())), ResultCode::OK);
    assert!(!cursor.eof());
    assert_eq!(cursor.next(), ResultCode::Error);
    assert!(cursor.eof());
    assert_eq!(cursor.column(0), Ok(VcValue::Null));
}
