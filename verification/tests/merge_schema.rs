//! Schemas and their merges.

use versioning::merge_schema::{
    added_columns, merge_schema, parse_schema, same_schema, SchemaDecision, SchemaIR,
};

fn ir(_table: &str, sql: &str) -> SchemaIR {
    parse_schema(sql).unwrap_or_else(|| panic!("failed to parse {sql}"))
}

#[test]
fn parse_inline_pk_and_types() {
    let s = ir("t", "CREATE TABLE t (id INTEGER PRIMARY KEY, v TEXT)");
    assert_eq!(s.table, "t");
    assert_eq!(s.columns.len(), 2);
    assert_eq!(s.columns[0].name, "id");
    assert_eq!(s.pk, vec!["id"]);
    assert_eq!(s.columns[1].name, "v");
    assert!(!s.strict);
}

#[test]
fn parse_table_level_pk_order() {
    let s = ir("t", "CREATE TABLE t (a TEXT, b TEXT, PRIMARY KEY (a, b))");
    assert_eq!(s.pk, vec!["a", "b"]);
}

#[test]
fn parse_quoted_identifiers_unquotes_names() {
    // `merged_sql` and `sqlite_schema` both quote identifiers; parsing must
    // strip the quotes so the names still match the snapshot's plain ones.
    let s =
        parse_schema("CREATE TABLE \"t\" (\"id\" INTEGER PRIMARY KEY, \"v\" TEXT)").unwrap();
    assert_eq!(s.table, "t");
    assert_eq!(s.columns[0].name, "id");
    assert_eq!(s.columns[1].name, "v");
    assert_eq!(s.pk, vec!["id"]);
}

#[test]
fn parse_bracketed_and_backtick_identifiers() {
    let s = parse_schema("CREATE TABLE [t] ([id] INTEGER PRIMARY KEY, `v` TEXT)").unwrap();
    assert_eq!(s.table, "t");
    assert_eq!(s.columns[0].name, "id");
    assert_eq!(s.columns[1].name, "v");
}

#[test]
fn parse_strict_and_notnull() {
    let s = ir(
        "t",
        "CREATE TABLE t (id INTEGER NOT NULL, v TEXT, PRIMARY KEY (id)) STRICT",
    );
    assert!(s.strict);
    assert!(s.columns[0].notnull);
    assert_eq!(s.pk, vec!["id"]);
}

#[test]
fn parse_default_and_check() {
    let s = ir(
        "t",
        "CREATE TABLE t (id INTEGER PRIMARY KEY, v TEXT DEFAULT 'x' CHECK (v <> ''))",
    );
    assert_eq!(s.columns[1].dflt.as_deref(), Some("'x'"));
    assert!(s.columns[1].decl.contains("CHECK"));
}

#[test]
fn parse_types_case_insensitively() {
    let a = ir("t", "CREATE TABLE t (id INTEGER PRIMARY KEY, v TEXT)");
    let b = ir("t", "CREATE TABLE t (id integer primary key, v text)");
    assert!(same_schema(&a, &b));
}

#[test]
fn pk_unchanged_matrix_take_base() {
    let base = ir("t", "CREATE TABLE t (id INTEGER PRIMARY KEY, v TEXT)");
    let ours = base.clone();
    let theirs = base.clone();
    let decision = merge_schema(Some(&base), Some(&ours), Some(&theirs));
    assert!(matches!(decision, SchemaDecision::Clean(_)));
}

#[test]
fn pk_changed_on_both_sides_to_different_results_refused() {
    let base = ir("t", "CREATE TABLE t (id INTEGER PRIMARY KEY, v TEXT)");
    let ours = ir("t", "CREATE TABLE t (a TEXT PRIMARY KEY, v TEXT)");
    let theirs = ir("t", "CREATE TABLE t (b TEXT PRIMARY KEY, v TEXT)");
    let decision = merge_schema(Some(&base), Some(&ours), Some(&theirs));
    match decision {
        SchemaDecision::Conflict(detail) => {
            assert_eq!(detail, "primary key changed on both sides")
        }
        _ => panic!("expected conflict"),
    }
}

#[test]
fn pk_changed_on_one_side_is_breaking_and_wins() {
    let base = ir("t", "CREATE TABLE t (id INTEGER PRIMARY KEY, v TEXT)");
    let ours = ir("t", "CREATE TABLE t (id INTEGER PRIMARY KEY, v TEXT)");
    let theirs = ir("t", "CREATE TABLE t (a TEXT PRIMARY KEY, v TEXT)");
    let decision = merge_schema(Some(&base), Some(&ours), Some(&theirs));
    assert!(matches!(decision, SchemaDecision::Clean(_)));
}

#[test]
fn compatible_unchanged_takes_ours() {
    let base = ir("t", "CREATE TABLE t (id INTEGER PRIMARY KEY, v TEXT)");
    let ours = ir(
        "t",
        "CREATE TABLE t (id INTEGER PRIMARY KEY, v TEXT, extra TEXT)",
    );
    let theirs = base.clone();
    let decision = merge_schema(Some(&base), Some(&ours), Some(&theirs));
    assert_eq!(decision, SchemaDecision::Clean(ours));
}

#[test]
fn compatible_compatible_unions_columns() {
    let base = ir("t", "CREATE TABLE t (id INTEGER PRIMARY KEY, v TEXT)");
    let ours = ir(
        "t",
        "CREATE TABLE t (id INTEGER PRIMARY KEY, v TEXT, a TEXT)",
    );
    let theirs = ir(
        "t",
        "CREATE TABLE t (id INTEGER PRIMARY KEY, v TEXT, b TEXT)",
    );
    let decision = merge_schema(Some(&base), Some(&ours), Some(&theirs));
    match decision {
        SchemaDecision::Clean(merged) => {
            let names: Vec<&str> = merged.columns.iter().map(|c| c.name.as_str()).collect();
            assert_eq!(names, vec!["id", "v", "a", "b"]);
        }
        _ => panic!("expected clean"),
    }
}

#[test]
fn compatible_compatible_same_name_different_decl_conflicts() {
    let base = ir("t", "CREATE TABLE t (id INTEGER PRIMARY KEY, v TEXT)");
    let ours = ir(
        "t",
        "CREATE TABLE t (id INTEGER PRIMARY KEY, v TEXT, a TEXT)",
    );
    let theirs = ir(
        "t",
        "CREATE TABLE t (id INTEGER PRIMARY KEY, v TEXT, a INTEGER)",
    );
    let decision = merge_schema(Some(&base), Some(&ours), Some(&theirs));
    assert!(matches!(decision, SchemaDecision::Conflict(_)));
}

#[test]
fn breaking_breaking_conflicts_unless_identical() {
    let base = ir("t", "CREATE TABLE t (id INTEGER PRIMARY KEY, v TEXT)");
    let ours = ir("t", "CREATE TABLE t (a TEXT PRIMARY KEY, w INTEGER)");
    let theirs = ir("t", "CREATE TABLE t (b TEXT PRIMARY KEY, w INTEGER)");
    let decision = merge_schema(Some(&base), Some(&ours), Some(&theirs));
    assert!(matches!(decision, SchemaDecision::Conflict(_)));
    let ours = ir("t", "CREATE TABLE t (a TEXT PRIMARY KEY, w INTEGER)");
    let theirs = ours.clone();
    assert!(matches!(
        merge_schema(Some(&base), Some(&ours), Some(&theirs)),
        SchemaDecision::Clean(_)
    ));
}

#[test]
fn breaking_unchanged_takes_ours() {
    let base = ir("t", "CREATE TABLE t (id INTEGER PRIMARY KEY, v TEXT)");
    let ours = ir("t", "CREATE TABLE t (a TEXT PRIMARY KEY, v TEXT)");
    let theirs = base.clone();
    let decision = merge_schema(Some(&base), Some(&ours), Some(&theirs));
    assert_eq!(decision, SchemaDecision::Clean(ours));
}

#[test]
fn added_on_one_side_only_is_clean() {
    let ours = ir("t", "CREATE TABLE t (id INTEGER PRIMARY KEY, v TEXT)");
    let decision = merge_schema(None, Some(&ours), None);
    assert_eq!(decision, SchemaDecision::Clean(ours.clone()));
    let decision = merge_schema(None, None, Some(&ours));
    assert_eq!(decision, SchemaDecision::Clean(ours));
}

#[test]
fn added_on_both_identically_is_clean() {
    let ours = ir("t", "CREATE TABLE t (id INTEGER PRIMARY KEY, v TEXT)");
    let theirs = ours.clone();
    let decision = merge_schema(None, Some(&ours), Some(&theirs));
    assert!(matches!(decision, SchemaDecision::Clean(_)));
}

#[test]
fn added_on_both_differently_conflicts() {
    let ours = ir("t", "CREATE TABLE t (id INTEGER PRIMARY KEY, v TEXT)");
    let theirs = ir("t", "CREATE TABLE t (a TEXT PRIMARY KEY, v TEXT)");
    let decision = merge_schema(None, Some(&ours), Some(&theirs));
    assert!(matches!(decision, SchemaDecision::Conflict(_)));
}

#[test]
fn rebuild_base_then_added() {
    let base = ir("t", "CREATE TABLE t (id INTEGER PRIMARY KEY, v TEXT)");
    let ours = ir(
        "t",
        "CREATE TABLE t (id INTEGER PRIMARY KEY, v TEXT, a TEXT)",
    );
    let theirs = ir(
        "t",
        "CREATE TABLE t (id INTEGER PRIMARY KEY, v TEXT, b TEXT)",
    );
    let ours_added = added_columns(&base, &ours);
    let theirs_added = added_columns(&base, &theirs);
    let rebuilt = base.rebuild(&ours_added, &theirs_added);
    assert!(rebuilt.contains(
        "CREATE TABLE \"t\" (\"id\" INTEGER PRIMARY KEY, \"v\" TEXT, \"a\" TEXT, \"b\" TEXT)"
    ));
}

#[test]
fn b1_delete_on_ours_unmodified_on_theirs_is_gone() {
    let base = ir("t", "CREATE TABLE t (id INTEGER PRIMARY KEY, v TEXT)");
    let theirs = base.clone();
    let decision = merge_schema(Some(&base), None, Some(&theirs));
    assert!(matches!(decision, SchemaDecision::Conflict(_)));
    assert_eq!(
        decision,
        SchemaDecision::Conflict("table deleted on ours, unchanged on theirs".to_string())
    );
}

#[test]
fn b1_delete_on_ours_modified_on_theirs_conflicts() {
    let base = ir("t", "CREATE TABLE t (id INTEGER PRIMARY KEY, v TEXT)");
    let theirs = ir(
        "t",
        "CREATE TABLE t (id INTEGER PRIMARY KEY, v TEXT, extra TEXT)",
    );
    let decision = merge_schema(Some(&base), None, Some(&theirs));
    assert!(matches!(decision, SchemaDecision::Conflict(_)));
    assert_eq!(
        decision,
        SchemaDecision::Conflict("table deleted on ours, modified on theirs".to_string())
    );
}

#[test]
fn b1_delete_on_theirs_unmodified_on_ours_is_gone() {
    let base = ir("t", "CREATE TABLE t (id INTEGER PRIMARY KEY, v TEXT)");
    let ours = base.clone();
    let decision = merge_schema(Some(&base), Some(&ours), None);
    assert!(matches!(decision, SchemaDecision::Conflict(_)));
    assert_eq!(
        decision,
        SchemaDecision::Conflict("table deleted on theirs, unchanged on ours".to_string())
    );
}

#[test]
fn b1_delete_on_theirs_modified_on_ours_conflicts() {
    let base = ir("t", "CREATE TABLE t (id INTEGER PRIMARY KEY, v TEXT)");
    let ours = ir(
        "t",
        "CREATE TABLE t (id INTEGER PRIMARY KEY, v TEXT, extra TEXT)",
    );
    let decision = merge_schema(Some(&base), Some(&ours), None);
    assert!(matches!(decision, SchemaDecision::Conflict(_)));
    assert_eq!(
        decision,
        SchemaDecision::Conflict("table deleted on theirs, modified on ours".to_string())
    );
}

#[test]
fn b1_no_base_added_on_theirs_only_takes_theirs() {
    let theirs = ir("t", "CREATE TABLE t (id INTEGER PRIMARY KEY, v TEXT)");
    let decision = merge_schema(None, None, Some(&theirs));
    assert_eq!(decision, SchemaDecision::Clean(theirs));
}

#[test]
fn b1_no_base_added_on_ours_only_takes_ours() {
    let ours = ir("t", "CREATE TABLE t (id INTEGER PRIMARY KEY, v TEXT)");
    let decision = merge_schema(None, Some(&ours), None);
    assert_eq!(decision, SchemaDecision::Clean(ours));
}

#[test]
fn b2_add_check_on_one_side_is_compatible() {
    let base = ir("t", "CREATE TABLE t (id INTEGER PRIMARY KEY, v TEXT)");
    let ours = ir(
        "t",
        "CREATE TABLE t (id INTEGER PRIMARY KEY, v TEXT, CHECK (id > 0))",
    );
    let decision = merge_schema(Some(&base), Some(&ours), Some(&base));
    assert!(matches!(decision, SchemaDecision::Clean(_)));
}

#[test]
fn b2_differing_check_constraints_conflict() {
    let base = ir("t", "CREATE TABLE t (id INTEGER PRIMARY KEY, v TEXT)");
    let ours = ir(
        "t",
        "CREATE TABLE t (id INTEGER PRIMARY KEY, v TEXT, CHECK (id > 0))",
    );
    let theirs = ir(
        "t",
        "CREATE TABLE t (id INTEGER PRIMARY KEY, v TEXT, CHECK (id > 1))",
    );
    let decision = merge_schema(Some(&base), Some(&ours), Some(&theirs));
    assert!(matches!(decision, SchemaDecision::Conflict(_)));
}

#[test]
fn b2_both_added_same_check_takes_base_with_check() {
    let base = ir("t", "CREATE TABLE t (id INTEGER PRIMARY KEY, v TEXT)");
    let ours = ir(
        "t",
        "CREATE TABLE t (id INTEGER PRIMARY KEY, v TEXT, CHECK (id > 0))",
    );
    let theirs = ir(
        "t",
        "CREATE TABLE t (id INTEGER PRIMARY KEY, v TEXT, CHECK (id > 0))",
    );
    let decision = merge_schema(Some(&base), Some(&ours), Some(&theirs));
    match decision {
        SchemaDecision::Clean(merged) => {
            assert!(
                merged.constraints.iter().any(|c| c.contains("CHECK")),
                "merged should contain the CHECK constraint, got {:?}",
                merged.constraints
            );
        }
        _ => panic!("expected clean"),
    }
}
