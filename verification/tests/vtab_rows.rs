//! The rows that the virtual tables show.

use versioning::model::VersionError;
use versioning::values::{VcRow, VcValue};
use versioning::vtab::{DiffType, TableDiffRow};
use versioning::vtab_rows::{
    build_at_t, build_blame_t, build_branches, build_diff, build_diff_t, build_history_t,
    build_log, build_patch, build_remote_branches, build_remotes, build_schema_diff,
    build_schemas, build_stat, build_summary, build_tags, BlameRow, BranchRow, CommitDiffRow,
    HistoryRow, LogRow, PatchRow, RemoteBranchRow, RemoteRow, SchemaDiffRow, SchemaRow, StatRow,
    SummaryRow, TagRow,
};

fn t(s: &str) -> VcValue {
    VcValue::Text(s.to_string())
}

fn n(i: i64) -> VcValue {
    VcValue::Integer(i)
}

fn s(text: &str) -> String {
    text.to_string()
}

#[test]
fn a_log_row_has_six_cells() {
    let row = LogRow {
        hash: s("h"),
        committer: s("c"),
        email: s("e"),
        date: s("d"),
        message: s("m"),
        revision: s("r"),
    };
    assert_eq!(
        build_log(Ok(vec![row])).unwrap(),
        vec![vec![t("h"), t("c"), t("e"), t("d"), t("m"), t("r")]]
    );
    assert_eq!(
        build_log(Err(VersionError::BranchNotFound(s("x")))),
        Err(s("branch not found: x"))
    );
}

#[test]
fn schemas_are_kept_by_kind_or_name() {
    let rows = vec![
        SchemaRow { kind: s("view"), name: s("a"), fragment: s("CREATE VIEW a") },
        SchemaRow { kind: s("trigger"), name: s("b"), fragment: s("CREATE TRIGGER b") },
    ];
    assert_eq!(build_schemas(&rows, 0, &vec![]).len(), 2);
    assert_eq!(
        build_schemas(&rows, 1, &vec![Some(s("trigger"))]),
        vec![vec![t("trigger"), t("b"), t("CREATE TRIGGER b"), VcValue::Null, VcValue::Null]]
    );
    assert_eq!(build_schemas(&rows, 2, &vec![Some(s("a"))])[0][1], t("a"));
    assert_eq!(build_schemas(&rows, 2, &vec![None]).len(), 2);
}

#[test]
fn commit_changes_are_kept_by_hash_or_table() {
    let row = |hash: &str, table: &str| CommitDiffRow {
        hash: s(hash),
        committer: s("c"),
        email: s("e"),
        date: s("d"),
        message: s("m"),
        data_change: true,
        schema_change: false,
        table_name: s(table),
    };
    let all = || Ok(vec![row("h1", "a"), row("h2", "b")]);
    assert_eq!(
        build_diff(all(), 1, &vec![Some(s("h2"))]).unwrap(),
        vec![vec![t("h2"), t("c"), t("e"), t("d"), t("m"), n(1), n(0), t("b")]]
    );
    assert_eq!(build_diff(all(), 2, &vec![Some(s("a"))]).unwrap().len(), 1);
    assert_eq!(build_diff(all(), 0, &vec![]).unwrap().len(), 2);
}

#[test]
fn comparisons_repeat_what_was_asked_for() {
    let stat = StatRow {
        table: s("a"),
        rows_unmodified: 1,
        rows_added: 2,
        rows_deleted: 3,
        rows_modified: 4,
        cells_added: 5,
        cells_deleted: 6,
        cells_modified: 7,
        old_rows: 8,
        new_rows: 9,
        old_cells: 10,
        new_cells: 11,
    };
    let rows = build_stat(Ok(vec![stat]), "x", "y", &None).unwrap();
    let mut want = vec![t("a")];
    want.extend((1..=11).map(n));
    want.extend(vec![t("x"), t("y"), t("")]);
    assert_eq!(rows, vec![want]);

    let summary = SummaryRow {
        from_table: s("a"),
        to_table: s("b"),
        diff_type: s("modified"),
        data_change: false,
        schema_change: true,
    };
    assert_eq!(
        build_summary(Ok(vec![summary]), "x", "y", &Some(s("a"))).unwrap(),
        vec![vec![t("a"), t("b"), t("modified"), n(0), n(1), t("x"), t("y"), t("a")]]
    );

    let schema = || SchemaDiffRow {
        from_table: s("a"),
        to_table: s("a"),
        from_create: s("p"),
        to_create: s("q"),
    };
    assert_eq!(
        build_schema_diff(Ok(vec![schema()]), "x", "y", &None).unwrap(),
        vec![vec![t("a"), t("a"), t("p"), t("q"), t("x"), t("y"), t("")]]
    );
    assert!(build_schema_diff(Ok(vec![schema()]), "x", "", &None).unwrap().is_empty());

    let patch = PatchRow {
        order: 1,
        from_commit: s("f"),
        to_commit: s("g"),
        table: s("a"),
        diff_type: s("data"),
        statement: s("DELETE"),
    };
    assert_eq!(
        build_patch(Ok(vec![patch]), "x", "y", &None).unwrap(),
        vec![vec![
            n(1),
            t("f"),
            t("g"),
            t("a"),
            t("data"),
            t("DELETE"),
            t("x"),
            t("y"),
            t("")
        ]]
    );
}

#[test]
fn references_are_listed() {
    let branch = BranchRow {
        name: s("main"),
        hash: s("h"),
        latest_commit_message: s("m"),
        remote: s(""),
        branch: true,
        dirty: false,
    };
    assert_eq!(
        build_branches(&vec![branch]),
        vec![vec![t("main"), t("h"), t("m"), t(""), n(1), n(0)]]
    );
    let tag = TagRow { tag_name: s("v1"), tag_hash: s("h"), message: s("m") };
    assert_eq!(build_tags(&vec![tag]), vec![vec![t("v1"), t("h"), t("m")]]);
    let remote = RemoteRow {
        name: s("origin"),
        url: s("mem://x"),
        fetch_specs: s("f"),
        params: s("p"),
    };
    assert_eq!(
        build_remotes(&vec![remote]),
        vec![vec![t("origin"), t("mem://x"), t("f"), t("p")]]
    );
    let far = vec![RemoteBranchRow {
        name: s("origin/main"),
        hash: s("h"),
        latest_commit_message: s("m"),
    }];
    assert_eq!(
        build_remote_branches(&far, 1, &vec![Some(s("origin"))]),
        vec![vec![t("origin/main"), t("h"), t("m"), t("origin")]]
    );
    assert_eq!(
        build_remote_branches(&far, 0, &vec![Some(s("origin"))])[0][3],
        t("")
    );
}

#[test]
fn table_scans_put_their_cells_behind_the_row() {
    let history = HistoryRow {
        values: vec![n(1), t("a")],
        hash: s("h"),
        committer: s("c"),
        date: s("d"),
        start: s("s"),
    };
    assert_eq!(
        build_history_t(Ok(vec![history])).unwrap(),
        vec![vec![n(1), t("a"), t("h"), t("c"), t("d"), t("s")]]
    );
    let at = VcRow::new(vec![n(1)]);
    assert_eq!(
        build_at_t(Ok(vec![at]), "refs:3", &vec![Some(s("v1"))]).unwrap(),
        vec![vec![n(1), t("v1")]]
    );
    let blame = BlameRow {
        pk_values: vec![n(1)],
        hash: s("h"),
        date: s("d"),
        committer: s("c"),
        email: s("e"),
        message: s("m"),
    };
    assert_eq!(
        build_blame_t(Ok(vec![blame])).unwrap(),
        vec![vec![n(1), t("h"), t("d"), t("c"), t("e"), t("m")]]
    );
    let added = TableDiffRow {
        to: vec![n(1)],
        to_commit: s("h2"),
        to_date: s("d2"),
        from: vec![],
        from_commit: s("h1"),
        from_date: s("d1"),
        diff_type: DiffType::Added,
    };
    assert_eq!(
        build_diff_t(Ok(vec![added]), "refs:8,7", &vec![Some(s("new")), Some(s("old"))]).unwrap(),
        vec![vec![
            n(1),
            t("h2"),
            t("d2"),
            VcValue::Null,
            t("h1"),
            t("d1"),
            t("added"),
            t("old"),
            t("new")
        ]]
    );
}
