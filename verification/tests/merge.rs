//! Three-way merges of rows.

use versioning::merge::{rows_keyed, three_way_row_merge};
use versioning::values::{VcRow, VcValue};

fn rows(data: &[(&str, &str)]) -> Vec<VcRow> {
    data.iter()
        .map(|(id, v)| {
            VcRow::new(vec![
                VcValue::Integer(id.parse().unwrap()),
                VcValue::Text(v.to_string()),
            ])
        })
        .collect()
}

fn text_rows(data: &[&str]) -> Vec<VcRow> {
    data.iter()
        .map(|v| VcRow::new(vec![VcValue::Text(v.to_string())]))
        .collect()
}

fn pk() -> Vec<String> {
    vec!["id".to_string()]
}

fn cols() -> Vec<String> {
    vec!["id".to_string(), "v".to_string()]
}

#[test]
fn fast_path_theirs_equals_base_keeps_ours() {
    let base = rows(&[("1", "a"), ("2", "b")]);
    let ours = rows(&[("1", "a"), ("2", "b"), ("3", "c")]);
    let theirs = rows(&[("1", "a"), ("2", "b")]);
    let out = three_way_row_merge(&base, &ours, &theirs, &pk(), &cols());
    assert!(out.conflicts.is_empty());
    assert_eq!(out.rows, rows_keyed(&ours, &pk(), &cols()));
}

#[test]
fn fast_path_ours_equals_base_takes_theirs() {
    let base = rows(&[("1", "a"), ("2", "b")]);
    let ours = rows(&[("1", "a"), ("2", "b")]);
    let theirs = rows(&[("1", "a"), ("2", "b"), ("3", "d")]);
    let out = three_way_row_merge(&base, &ours, &theirs, &pk(), &cols());
    assert!(out.conflicts.is_empty());
    assert_eq!(out.rows, rows_keyed(&theirs, &pk(), &cols()));
}

#[test]
fn cell_changed_on_one_side_is_taken() {
    let base = rows(&[("1", "a"), ("2", "b")]);
    let ours = rows(&[("1", "a"), ("2", "b")]);
    let theirs = rows(&[("1", "a"), ("2", "B")]);
    let out = three_way_row_merge(&base, &ours, &theirs, &pk(), &cols());
    assert!(out.conflicts.is_empty());
    assert_eq!(
        out.rows,
        vec![
            (
                vec![VcValue::Integer(1)],
                VcRow::new(vec![VcValue::Integer(1), VcValue::Text("a".into())])
            ),
            (
                vec![VcValue::Integer(2)],
                VcRow::new(vec![VcValue::Integer(2), VcValue::Text("B".into())])
            ),
        ]
    );
}

#[test]
fn cell_changed_identically_on_both_sides_merges_clean() {
    let base = rows(&[("1", "a")]);
    let ours = rows(&[("1", "z")]);
    let theirs = rows(&[("1", "z")]);
    let out = three_way_row_merge(&base, &ours, &theirs, &pk(), &cols());
    assert!(out.conflicts.is_empty());
    assert_eq!(out.rows.len(), 1);
    assert_eq!(out.rows[0].1.values[1], VcValue::Text("z".into()));
}

#[test]
fn cell_changed_differently_on_both_sides_conflicts() {
    let base = rows(&[("1", "a")]);
    let ours = rows(&[("1", "ours")]);
    let theirs = rows(&[("1", "theirs")]);
    let out = three_way_row_merge(&base, &ours, &theirs, &pk(), &cols());
    assert!(out.rows.is_empty());
    assert_eq!(out.conflicts.len(), 1);
    let (_, c) = &out.conflicts[0];
    assert_eq!(
        c.ours.as_ref().unwrap().values[1],
        VcValue::Text("ours".into())
    );
    assert_eq!(
        c.theirs.as_ref().unwrap().values[1],
        VcValue::Text("theirs".into())
    );
}

#[test]
fn row_added_on_one_side_is_kept() {
    let base = rows(&[("1", "a")]);
    let ours = rows(&[("1", "a"), ("2", "b")]);
    let theirs = rows(&[("1", "a")]);
    let out = three_way_row_merge(&base, &ours, &theirs, &pk(), &cols());
    assert!(out.conflicts.is_empty());
    assert!(out
        .rows
        .iter()
        .any(|(k, _)| k == &vec![VcValue::Integer(2)]));
}

#[test]
fn row_added_identically_on_both_kept_once() {
    let base = rows(&[("1", "a")]);
    let ours = rows(&[("1", "a"), ("2", "b")]);
    let theirs = rows(&[("1", "a"), ("2", "b")]);
    let out = three_way_row_merge(&base, &ours, &theirs, &pk(), &cols());
    assert!(out.conflicts.is_empty());
    assert_eq!(
        out.rows
            .iter()
            .filter(|(k, _)| k == &vec![VcValue::Integer(2)])
            .count(),
        1
    );
}

#[test]
fn row_added_differently_under_same_pk_conflicts() {
    let base = rows(&[("1", "a")]);
    let ours = rows(&[("1", "a"), ("2", "ours")]);
    let theirs = rows(&[("1", "a"), ("2", "theirs")]);
    let out = three_way_row_merge(&base, &ours, &theirs, &pk(), &cols());
    assert!(out
        .rows
        .iter()
        .all(|(k, _)| k != &vec![VcValue::Integer(2)]));
    assert_eq!(out.conflicts.len(), 1);
    assert!(out.conflicts[0].1.base.is_none());
}

#[test]
fn delete_on_one_side_and_modify_on_other_conflicts() {
    let base = rows(&[("1", "a"), ("2", "b")]);
    let ours = rows(&[("1", "a")]);
    let theirs = rows(&[("1", "a"), ("2", "B")]);
    let out = three_way_row_merge(&base, &ours, &theirs, &pk(), &cols());
    assert_eq!(out.conflicts.len(), 1);
    let (_, c) = &out.conflicts[0];
    assert_eq!(c.pk, vec![VcValue::Integer(2)]);
    assert!(c.ours.is_none());
    assert!(c.theirs.is_some());
}

#[test]
fn delete_on_both_is_gone_without_conflict() {
    let base = rows(&[("1", "a"), ("2", "b")]);
    let ours = rows(&[("1", "a")]);
    let theirs = rows(&[("1", "a")]);
    let out = three_way_row_merge(&base, &ours, &theirs, &pk(), &cols());
    assert!(out.conflicts.is_empty());
    assert!(out
        .rows
        .iter()
        .all(|(k, _)| k != &vec![VcValue::Integer(2)]));
}

#[test]
fn unchanged_row_keeps_ours() {
    let base = rows(&[("1", "a")]);
    let ours = rows(&[("1", "a"), ("9", "x")]);
    let theirs = rows(&[("1", "a"), ("9", "x")]);
    let out = three_way_row_merge(&base, &ours, &theirs, &pk(), &cols());
    assert!(out.conflicts.is_empty());
    let r1 = out
        .rows
        .iter()
        .find(|(k, _)| k == &vec![VcValue::Integer(1)])
        .unwrap();
    assert_eq!(r1.1.values[1], VcValue::Text("a".into()));
}

#[test]
fn no_pk_identical_sets_merge_clean() {
    let base = text_rows(&["a", "b"]);
    let ours = text_rows(&["a", "b", "c"]);
    let theirs = text_rows(&["a", "b", "c"]);
    let out = three_way_row_merge(&base, &ours, &theirs, &vec![], &vec![String::from("v")]);
    assert!(out.conflicts.is_empty());
    assert_eq!(out.rows.len(), 3);
}

#[test]
fn no_pk_divergence_is_conflict() {
    let base = text_rows(&["a", "b"]);
    let ours = text_rows(&["a", "b", "c"]);
    let theirs = text_rows(&["a", "b", "d"]);
    let out = three_way_row_merge(&base, &ours, &theirs, &vec![], &vec![String::from("v")]);
    assert_eq!(out.conflicts.len(), 2);
    // The clean intersection stays in the working rows: a and b appear in
    // both sides, so nobody disputes them even though the sides diverged.
    let shared: Vec<&str> = out
        .rows
        .iter()
        .map(|(_, r)| match &r.values[0] {
            VcValue::Text(s) => s.as_str(),
            _ => panic!("text row expected"),
        })
        .collect();
    assert_eq!(shared, vec!["a", "b"]);
}

#[test]
fn no_pk_one_side_equals_base_takes_other_side() {
    let base = text_rows(&["a", "b"]);
    let ours = text_rows(&["a", "b"]);
    let theirs = text_rows(&["a", "b", "d"]);
    let out = three_way_row_merge(&base, &ours, &theirs, &vec![], &vec![String::from("v")]);
    assert!(out.conflicts.is_empty());
    assert_eq!(out.rows.len(), 3);
}

#[test]
fn multi_column_pk_keyed_by_both_columns() {
    let cols: Vec<String> = vec!["a".to_string(), "b".to_string(), "v".to_string()];
    let pk: Vec<String> = vec!["a".to_string(), "b".to_string()];
    let base = vec![VcRow::new(vec![
        VcValue::Integer(1),
        VcValue::Integer(1),
        VcValue::Text("x".into()),
    ])];
    let ours = base.clone();
    let theirs = vec![VcRow::new(vec![
        VcValue::Integer(1),
        VcValue::Integer(1),
        VcValue::Text("y".into()),
    ])];
    let out = three_way_row_merge(&base, &ours, &theirs, &pk, &cols);
    assert!(out.conflicts.is_empty());
    assert_eq!(
        out.rows[0].0,
        vec![VcValue::Integer(1), VcValue::Integer(1)]
    );
    assert_eq!(out.rows[0].1.values[2], VcValue::Text("y".into()));
}
