//! Constraint checks.

use versioning::checks::eval_check;
use versioning::constraints::{
    extract_checks, extract_unique_sets, verify_constraints, MergedTable, MergedWork, ViolationKind,
};
use versioning::merge_schema::{parse_schema, SchemaIR};
use versioning::values::{VcRow, VcValue};

fn schema(sql: &str) -> SchemaIR {
    parse_schema(sql).unwrap()
}

fn table(name: &str, schema_sql: &str, rows: Vec<VcRow>) -> MergedTable {
    MergedTable {
        name: name.to_string(),
        schema: schema(&sql_string(name, schema_sql)),
        rows,
    }
}

fn sql_string(name: &str, body: &str) -> String {
    format!("CREATE TABLE {name} {body}")
}

#[test]
fn unique_detects_duplicate_single_column() {
    let t = table(
        "t",
        "(id INTEGER PRIMARY KEY, v TEXT UNIQUE)",
        vec![
            VcRow::new(vec![VcValue::Integer(1), VcValue::Text("a".into())]),
            VcRow::new(vec![VcValue::Integer(2), VcValue::Text("a".into())]),
        ],
    );
    let work = MergedWork { tables: vec![t] };
    let schemas: Vec<SchemaIR> = work.tables.iter().map(|t| t.schema.clone()).collect();
    let violations = verify_constraints(&work, &schemas);
    assert_eq!(violations.len(), 1);
    assert_eq!(violations[0].kind, ViolationKind::Unique);
    assert_eq!(violations[0].row_pk, vec![VcValue::Integer(2)]);
}

#[test]
fn unique_detects_duplicate_multi_column() {
    let t = table(
        "t",
        "(a TEXT, b TEXT, PRIMARY KEY (a, b))",
        vec![
            VcRow::new(vec![VcValue::Text("x".into()), VcValue::Text("y".into())]),
            VcRow::new(vec![VcValue::Text("x".into()), VcValue::Text("y".into())]),
        ],
    );
    let work = MergedWork { tables: vec![t] };
    let schemas: Vec<SchemaIR> = work.tables.iter().map(|t| t.schema.clone()).collect();
    let violations = verify_constraints(&work, &schemas);
    assert_eq!(violations.len(), 1);
    assert_eq!(violations[0].kind, ViolationKind::Unique);
}

#[test]
fn not_null_detects_null_in_notnull_column() {
    let t = table(
        "t",
        "(id INTEGER PRIMARY KEY, v TEXT NOT NULL)",
        vec![VcRow::new(vec![VcValue::Integer(1), VcValue::Null])],
    );
    let work = MergedWork { tables: vec![t] };
    let schemas: Vec<SchemaIR> = work.tables.iter().map(|t| t.schema.clone()).collect();
    let violations = verify_constraints(&work, &schemas);
    assert_eq!(violations.len(), 1);
    assert_eq!(violations[0].kind, ViolationKind::NotNull);
    assert_eq!(violations[0].detail, "NULL in NOT NULL column v");
}

#[test]
fn check_detects_false_row() {
    let t = table(
        "t",
        "(id INTEGER PRIMARY KEY, v TEXT, CHECK (v <> ''))",
        vec![VcRow::new(vec![
            VcValue::Integer(1),
            VcValue::Text("".into()),
        ])],
    );
    let work = MergedWork { tables: vec![t] };
    let schemas: Vec<SchemaIR> = work.tables.iter().map(|t| t.schema.clone()).collect();
    let violations = verify_constraints(&work, &schemas);
    assert_eq!(violations.len(), 1);
    assert_eq!(violations[0].kind, ViolationKind::Check);
}

#[test]
fn check_null_result_passes() {
    let t = table(
        "t",
        "(id INTEGER PRIMARY KEY, v TEXT, CHECK (v <> ''))",
        vec![VcRow::new(vec![VcValue::Integer(1), VcValue::Null])],
    );
    let work = MergedWork { tables: vec![t] };
    let schemas: Vec<SchemaIR> = work.tables.iter().map(|t| t.schema.clone()).collect();
    assert!(verify_constraints(&work, &schemas).is_empty());
}

#[test]
fn check_unsupported_expression_is_violation_not_silent_pass() {
    let t = table(
        "t",
        "(id INTEGER PRIMARY KEY, v TEXT, CHECK (v GLOB '*'))",
        vec![VcRow::new(vec![
            VcValue::Integer(1),
            VcValue::Text("x".into()),
        ])],
    );
    let work = MergedWork { tables: vec![t] };
    let schemas: Vec<SchemaIR> = work.tables.iter().map(|t| t.schema.clone()).collect();
    let violations = verify_constraints(&work, &schemas);
    assert_eq!(violations.len(), 1);
    assert_eq!(violations[0].kind, ViolationKind::Check);
    assert!(
        violations[0]
            .detail
            .contains("check expression not supported: v GLOB '*'"),
        "{}",
        violations[0].detail
    );
}

#[test]
fn strict_rejects_text_into_integer_column() {
    let t = table(
        "t",
        "(id INTEGER PRIMARY KEY, v INTEGER) STRICT",
        vec![VcRow::new(vec![
            VcValue::Integer(1),
            VcValue::Text("x".into()),
        ])],
    );
    let work = MergedWork { tables: vec![t] };
    let schemas: Vec<SchemaIR> = work.tables.iter().map(|t| t.schema.clone()).collect();
    let violations = verify_constraints(&work, &schemas);
    assert_eq!(violations.len(), 1);
    assert_eq!(violations[0].kind, ViolationKind::Strict);
    assert!(violations[0].detail.contains("STRICT column v"));
}

#[test]
fn strict_allows_matching_types() {
    let t = table(
        "t",
        "(id INTEGER PRIMARY KEY, v INTEGER) STRICT",
        vec![VcRow::new(vec![VcValue::Integer(1), VcValue::Integer(7)])],
    );
    let work = MergedWork { tables: vec![t] };
    let schemas: Vec<SchemaIR> = work.tables.iter().map(|t| t.schema.clone()).collect();
    assert!(verify_constraints(&work, &schemas).is_empty());
}

#[test]
fn foreign_key_missing_parent_key_detected() {
    let child = table(
        "child",
        "(id INTEGER PRIMARY KEY, parent_id INTEGER REFERENCES parent (id))",
        vec![VcRow::new(vec![VcValue::Integer(1), VcValue::Integer(99)])],
    );
    let parent = table(
        "parent",
        "(id INTEGER PRIMARY KEY)",
        vec![VcRow::new(vec![VcValue::Integer(1)])],
    );
    let work = MergedWork {
        tables: vec![child, parent],
    };
    let schemas: Vec<SchemaIR> = work.tables.iter().map(|t| t.schema.clone()).collect();
    let violations = verify_constraints(&work, &schemas);
    assert_eq!(violations.len(), 1);
    assert_eq!(violations[0].kind, ViolationKind::ForeignKey);
}

#[test]
fn foreign_key_matching_parent_key_passes() {
    let child = table(
        "child",
        "(id INTEGER PRIMARY KEY, parent_id INTEGER REFERENCES parent (id))",
        vec![VcRow::new(vec![VcValue::Integer(1), VcValue::Integer(1)])],
    );
    let parent = table(
        "parent",
        "(id INTEGER PRIMARY KEY)",
        vec![VcRow::new(vec![VcValue::Integer(1)])],
    );
    let work = MergedWork {
        tables: vec![child, parent],
    };
    let schemas: Vec<SchemaIR> = work.tables.iter().map(|t| t.schema.clone()).collect();
    assert!(verify_constraints(&work, &schemas).is_empty());
}

#[test]
fn foreign_key_missing_parent_table_is_violation() {
    let child = table(
        "child",
        "(id INTEGER PRIMARY KEY, parent_id INTEGER REFERENCES missing (id))",
        vec![VcRow::new(vec![VcValue::Integer(1), VcValue::Integer(99)])],
    );
    let work = MergedWork {
        tables: vec![child],
    };
    let schemas: Vec<SchemaIR> = work.tables.iter().map(|t| t.schema.clone()).collect();
    let violations = verify_constraints(&work, &schemas);
    assert_eq!(violations.len(), 1);
    assert_eq!(violations[0].kind, ViolationKind::ForeignKey);
    assert!(violations[0].detail.contains("-> missing (id)"));
}

#[test]
fn foreign_key_missing_column_indices_is_violation() {
    let child = table(
        "child",
        "(id INTEGER PRIMARY KEY, parent_id INTEGER REFERENCES parent (id))",
        vec![VcRow::new(vec![VcValue::Integer(1), VcValue::Integer(99)])],
    );
    // The referenced column is absent from the parent schema.
    let parent = table(
        "parent",
        "(other INTEGER)",
        vec![VcRow::new(vec![VcValue::Integer(1)])],
    );
    let work = MergedWork {
        tables: vec![child, parent],
    };
    let schemas: Vec<SchemaIR> = work.tables.iter().map(|t| t.schema.clone()).collect();
    let violations = verify_constraints(&work, &schemas);
    assert_eq!(violations.len(), 1);
    assert_eq!(violations[0].kind, ViolationKind::ForeignKey);
}

#[test]
fn check_unknown_column_is_unsupported_violation() {
    let t = table(
        "t",
        "(id INTEGER PRIMARY KEY, v TEXT, CHECK (ghost > 0))",
        vec![VcRow::new(vec![
            VcValue::Integer(1),
            VcValue::Text("x".into()),
        ])],
    );
    let work = MergedWork { tables: vec![t] };
    let schemas: Vec<SchemaIR> = work.tables.iter().map(|t| t.schema.clone()).collect();
    let violations = verify_constraints(&work, &schemas);
    assert_eq!(violations.len(), 1);
    assert!(
        violations[0]
            .detail
            .contains("check expression not supported: ghost > 0"),
        "{}",
        violations[0].detail
    );
}

#[test]
fn check_null_in_list_is_unknown_not_true() {
    let row = VcRow::new(vec![VcValue::Null, VcValue::Text("abc".into())]);
    let cols = vec!["id".to_string(), "v".to_string()];
    assert_eq!(eval_check("id IN (1, 2, NULL)", &row, &cols).unwrap(), None);
    assert_eq!(
        eval_check("id NOT IN (1, 2, NULL)", &row, &cols).unwrap(),
        None
    );
}

#[test]
fn check_null_like_is_unknown() {
    let row = VcRow::new(vec![VcValue::Null, VcValue::Null]);
    let cols = vec!["id".to_string(), "v".to_string()];
    assert_eq!(eval_check("v LIKE '%'", &row, &cols).unwrap(), None);
}

#[test]
fn eval_check_comparisons() {
    let row = VcRow::new(vec![VcValue::Integer(5), VcValue::Text("abc".into())]);
    let cols = vec!["id".to_string(), "v".to_string()];
    assert_eq!(eval_check("id = 5", &row, &cols).unwrap(), Some(true));
    assert_eq!(eval_check("id != 6", &row, &cols).unwrap(), Some(true));
    assert_eq!(eval_check("id < 6", &row, &cols).unwrap(), Some(true));
    assert_eq!(eval_check("id >= 5", &row, &cols).unwrap(), Some(true));
    assert_eq!(
        eval_check("v IS NOT NULL", &row, &cols).unwrap(),
        Some(true)
    );
    assert_eq!(eval_check("v IS NULL", &row, &cols).unwrap(), Some(false));
    assert_eq!(eval_check("v LIKE 'a%'", &row, &cols).unwrap(), Some(true));
    assert_eq!(
        eval_check("id IN (1, 2, 5)", &row, &cols).unwrap(),
        Some(true)
    );
    assert_eq!(
        eval_check("id NOT IN (1, 2)", &row, &cols).unwrap(),
        Some(true)
    );
}

#[test]
fn eval_check_and_or_and_parentheses() {
    let row = VcRow::new(vec![VcValue::Integer(5), VcValue::Text("abc".into())]);
    let cols = vec!["id".to_string(), "v".to_string()];
    assert_eq!(
        eval_check("id > 0 AND v IS NOT NULL", &row, &cols).unwrap(),
        Some(true)
    );
    assert_eq!(
        eval_check("(id > 0 OR id < 0) AND v <> 'x'", &row, &cols).unwrap(),
        Some(true)
    );
}

#[test]
fn violation_type_display_is_dolt_exact() {
    assert_eq!(ViolationKind::ForeignKey.to_string(), "foreign key");
    assert_eq!(ViolationKind::Unique.to_string(), "unique");
    assert_eq!(ViolationKind::Check.to_string(), "check");
    assert_eq!(ViolationKind::NotNull.to_string(), "not null");
    assert_eq!(ViolationKind::Strict.to_string(), "strict");
}

#[test]
fn parse_table_level_unique_and_check() {
    let s = schema("CREATE TABLE t (a TEXT, b TEXT, UNIQUE (a, b), CHECK (a <> ''))");
    assert_eq!(extract_unique_sets(&s).len(), 1);
    assert_eq!(extract_checks(&s).len(), 1);
}
