//! Rules that hold across the library, on concrete values.

use versioning::checks::eval_check;
use versioning::commit::{
    ancestors, encode_v2, hash_commit, is_ancestor, Commit, CommitMeta, CommitStore,
    MemCommitStore,
};
use versioning::conflicts::ResolveSide;
use versioning::constraints::{verify_constraints, MergedTable, MergedWork, ViolationKind};
use versioning::creds::{CredStore, MemCredStore};
use versioning::merge::{three_way_row_merge, ConflictRow};
use versioning::merge_schema::{merge_schema, parse_schema, same_schema, SchemaDecision};
use versioning::model::{CommitId, RootHash, VersionError, VersionResult};
use versioning::operations::VcOperations;
use versioning::refs::{parse_qualified_path, parse_revision, RefName, RefStore, Revision};
use versioning::remote::PullOutcome;
use versioning::remote_transport::{MemHub, MemTransport};
use versioning::remote_wire::{
    decode_refs, decode_snapshot_record, encode_refs, encode_snapshot_record, verify_object,
    RemoteRefs, SourceId,
};
use versioning::source::{ChunkSource, OriginSource};
use versioning::staging::{TableSnapshot, VcStore};
use versioning::values::{VcRow, VcValue};

fn row(id: i64, v: &str) -> VcRow {
    VcRow::new(vec![VcValue::Integer(id), VcValue::Text(v.to_string())])
}

fn names(list: &[&str]) -> Vec<String> {
    list.iter().map(|s| s.to_string()).collect()
}

fn store() -> VcStore {
    let mut s = VcStore::new("main");
    s.config_set("user.name", "Ada");
    s.config_set("user.email", "ada@example.com");
    s
}

fn commit_rows(s: &mut VcStore, pk: &[&str], rows: Vec<VcRow>, msg: &str) -> CommitId {
    s.apply_work("t", names(&["id", "v"]), names(pk), rows, String::new());
    s.track_table("t");
    s.dolt_add(&["t"]).unwrap();
    s.dolt_commit(msg, None, false, false).unwrap()
}

fn endpoint() -> MemTransport {
    MemTransport::open(&mut MemHub::new(), "x", false, None)
}

fn bare_commit(parents: Vec<CommitId>, message: &str) -> Commit {
    Commit {
        parents,
        root: RootHash([0; 20]),
        meta: CommitMeta {
            name: "a".to_string(),
            email: "a@b".to_string(),
            message: message.to_string(),
            timestamp: 1,
        },
    }
}

/// Two lines of work from one commit, joined by a fourth.
fn diamond() -> (MemCommitStore, [CommitId; 4]) {
    let mut s = MemCommitStore::new();
    let id0 = s.put_commit(bare_commit(vec![], "0"));
    let id1 = s.put_commit(bare_commit(vec![id0], "1"));
    let id2 = s.put_commit(bare_commit(vec![id0], "2"));
    let id3 = s.put_commit(bare_commit(vec![id1, id2], "3"));
    (s, [id0, id1, id2, id3])
}

#[test]
fn a_path_whose_end_is_no_revision_is_a_plain_path() {
    assert_eq!(
        parse_qualified_path("my.db/main^foo").unwrap(),
        ("my.db/main^foo".to_string(), Revision::Head)
    );
    assert!(parse_qualified_path("my.db@main^foo").is_err());
}

#[test]
fn a_check_is_read_to_its_end() {
    let r = VcRow::new(vec![VcValue::Integer(5)]);
    let cols = names(&["id"]);
    assert_eq!(
        eval_check("id = 5 + 1", &r, &cols),
        Err("id = 5 + 1".to_string())
    );
    assert_eq!(eval_check("id = 5", &r, &cols), Ok(Some(true)));
}

#[test]
fn commit_bytes_verify_only_as_they_are() {
    let commit = bare_commit(vec![], "seed");
    let id = SourceId::Commit(hash_commit(&commit));
    let mut bytes = encode_v2(&commit);
    assert!(verify_object(&id, &bytes).is_ok());
    bytes.push(0);
    assert!(verify_object(&id, &bytes).is_err());
}

#[test]
fn copies_of_a_row_count_without_a_key() {
    let r = row(1, "a");
    let out = three_way_row_merge(
        &vec![r.clone()],
        &vec![r.clone(), r.clone()],
        &vec![r.clone(), r.clone(), r.clone()],
        &vec![],
        &names(&["id", "v"]),
    );
    assert_eq!(out.rows.len(), 2);
    assert_eq!(
        out.conflicts,
        vec![(
            String::new(),
            ConflictRow {
                pk: r.values.clone(),
                base: Some(r.clone()),
                ours: None,
                theirs: Some(r.clone()),
            }
        )]
    );
}

#[test]
fn a_table_without_a_key_keeps_its_copies() {
    let mut s = store();
    let r = row(1, "a");
    commit_rows(&mut s, &[], vec![r.clone()], "seed");
    s.create_branch("feature").unwrap();
    commit_rows(&mut s, &[], vec![r.clone(), r.clone()], "two");
    s.checkout("feature").unwrap();
    commit_rows(&mut s, &[], vec![r.clone(), r.clone(), r.clone()], "three");
    s.checkout("main").unwrap();
    s.merge_branch("feature", false, false, None).unwrap();
    let pk = s.conflict_entries()[0].pk.clone();
    s.resolve_conflict("t", &pk, ResolveSide::Theirs).unwrap();
    assert_eq!(
        s.work_table("t").unwrap().rows,
        vec![r.clone(), r.clone(), r.clone()]
    );
}

#[test]
fn differing_constraint_additions_conflict_either_way() {
    let base = parse_schema("CREATE TABLE t (id INTEGER PRIMARY KEY, v TEXT)").unwrap();
    let one =
        parse_schema("CREATE TABLE t (id INTEGER PRIMARY KEY, v TEXT, CHECK (id > 0))").unwrap();
    let two = parse_schema(
        "CREATE TABLE t (id INTEGER PRIMARY KEY, v TEXT, CHECK (id > 0), CHECK (id > 1))",
    )
    .unwrap();
    let swapped = parse_schema(
        "CREATE TABLE t (id INTEGER PRIMARY KEY, v TEXT, CHECK (id > 1), CHECK (id > 0))",
    )
    .unwrap();
    let refused =
        SchemaDecision::Conflict("conflicting constraint additions on both sides".to_string());
    assert_eq!(merge_schema(Some(&base), Some(&one), Some(&two)), refused);
    assert_eq!(merge_schema(Some(&base), Some(&two), Some(&one)), refused);
    match merge_schema(Some(&base), Some(&two), Some(&swapped)) {
        SchemaDecision::Clean(m) => assert_eq!(m.constraints.len(), 2),
        SchemaDecision::Conflict(d) => panic!("{d}"),
    }
}

#[test]
fn columns_know_their_place_in_the_key() {
    let s = parse_schema("CREATE TABLE t (a TEXT, b TEXT, c TEXT, PRIMARY KEY (c, a))").unwrap();
    let places: Vec<Option<usize>> = s.columns.iter().map(|c| c.pk_pos).collect();
    assert_eq!(s.pk, names(&["c", "a"]));
    assert_eq!(places, vec![Some(1), None, Some(0)]);
    let one = parse_schema("CREATE TABLE t (id INTEGER PRIMARY KEY, v TEXT)").unwrap();
    assert_eq!(one.columns[0].pk_pos, Some(0));
    assert_eq!(one.columns[1].pk_pos, None);
}

#[test]
fn ancestry_goes_over_all_parents() {
    let (s, [id0, id1, id2, id3]) = diamond();
    assert_eq!(is_ancestor(&s, id2, id3), Ok(true));
    assert_eq!(is_ancestor(&s, id1, id3), Ok(true));
    assert_eq!(is_ancestor(&s, id0, id3), Ok(true));
    assert_eq!(is_ancestor(&s, id3, id2), Ok(false));
    assert_eq!(ancestors(&s, id3).unwrap(), vec![id3, id1, id0]);
    let lost = CommitId([7; 20]);
    assert_eq!(
        is_ancestor(&s, id0, lost),
        Err(VersionError::CommitNotFound(lost.to_hex()))
    );
}

#[test]
fn parents_are_counted_from_one_and_zero_is_the_first() {
    let mut s = store();
    let first = commit_rows(&mut s, &["id"], vec![row(1, "a")], "one");
    s.create_branch("feature").unwrap();
    let ours = commit_rows(&mut s, &["id"], vec![row(1, "a"), row(2, "b")], "two");
    s.checkout("feature").unwrap();
    let theirs = commit_rows(&mut s, &["id"], vec![row(1, "a"), row(3, "c")], "three");
    s.checkout("main").unwrap();
    s.merge_branch("feature", false, false, None).unwrap();
    assert_eq!(s.resolve("main^0"), Ok(ours));
    assert_eq!(s.resolve("main^1"), Ok(ours));
    assert_eq!(s.resolve("main^2"), Ok(theirs));
    let lacks = |text: &str| Err(VersionError::CommitNotFound(text.to_string()));
    assert_eq!(s.resolve("main^3"), lacks("main^3"));
    assert_eq!(s.resolve("main^1^0"), Ok(first));
    let root = first.to_hex();
    for n in ["0", "1", "2"] {
        assert_eq!(s.resolve(&format!("{root}^{n}")), lacks(&format!("{root}^1")));
    }
}

#[test]
fn a_merged_branch_can_be_fast_forwarded() {
    let mut t = endpoint();
    let mut a = store();
    commit_rows(&mut a, &["id"], vec![row(1, "a")], "seed");
    a.create_branch("feature").unwrap();
    a.checkout("feature").unwrap();
    let side = commit_rows(&mut a, &["id"], vec![row(1, "a"), row(2, "b")], "side");
    a.remote_add("origin", "mem://x").unwrap();
    a.push(&mut t, "origin", "feature", false).unwrap();
    let mut b = store();
    b.clone_remote(&mut t, "mem://x", false).unwrap();

    a.checkout("main").unwrap();
    commit_rows(&mut a, &["id"], vec![row(1, "a"), row(3, "c")], "main");
    a.merge_branch("feature", false, false, None).unwrap();
    let joined = a.head_commit().unwrap();
    a.delete_branch("feature").unwrap();
    a.create_branch("feature").unwrap();
    assert_eq!(a.refs.get(&RefName::branch("feature")), Some(joined));
    assert_eq!(is_ancestor(&a.commits, side, joined), Ok(true));
    // The remote's tip is the second parent of what is pushed.
    a.push(&mut t, "origin", "feature", false).unwrap();
    assert_eq!(
        b.pull(&mut t, "origin", "feature"),
        Ok(PullOutcome::FastForwarded)
    );
    assert_eq!(b.refs.get(&RefName::branch("feature")), Some(joined));
}

#[test]
fn commas_within_a_check_belong_to_it() {
    let sql = "CREATE TABLE t (id INTEGER PRIMARY KEY, v INTEGER, CHECK (v IN (1, 2, 5)))";
    let schema = parse_schema(sql).unwrap();
    let work = |v: i64| MergedWork {
        tables: vec![MergedTable {
            name: "t".to_string(),
            schema: parse_schema(sql).unwrap(),
            rows: vec![VcRow::new(vec![VcValue::Integer(1), VcValue::Integer(v)])],
        }],
    };
    assert!(verify_constraints(&work(5), &vec![schema.clone()]).is_empty());
    let found = verify_constraints(&work(3), &vec![schema]);
    assert_eq!(found.len(), 1);
    assert_eq!(found[0].kind, ViolationKind::Check);
}

/// A source with one object, which counts how often it is asked.
struct One {
    id: SourceId,
    bytes: Vec<u8>,
    asked: usize,
}

impl ChunkSource for One {
    type State = ();

    fn get(&mut self, id: SourceId) -> VersionResult<Vec<u8>> {
        self.asked += 1;
        if id == self.id {
            Ok(self.bytes.clone())
        } else {
            Err(VersionError::ChunkNotFound(id.to_hex()))
        }
    }

    fn get_many(&mut self, ids: &Vec<SourceId>) -> VersionResult<Vec<Option<Vec<u8>>>> {
        self.asked += 1;
        Ok(ids
            .iter()
            .map(|id| {
                if *id == self.id {
                    Some(self.bytes.clone())
                } else {
                    None
                }
            })
            .collect())
    }
}

#[test]
fn a_second_hydration_asks_nothing_without_a_catalog() {
    let commit = bare_commit(vec![], "seed");
    let tip = hash_commit(&commit);
    let mut source = One {
        id: SourceId::Commit(tip),
        bytes: encode_v2(&commit),
        asked: 0,
    };
    let mut s = VcStore::new("main");
    s.hydrate_with(&mut source, tip).unwrap();
    assert_eq!(source.asked, 1);
    assert_eq!(s.get_commit(&tip), Some(commit));
    s.hydrate_with(&mut source, tip).unwrap();
    assert_eq!(source.asked, 1);
}

#[test]
fn a_materialised_clone_holds_its_whole_history() {
    let mut t = endpoint();
    let mut a = store();
    let first = commit_rows(&mut a, &["id"], vec![row(1, "a")], "one");
    let second = commit_rows(&mut a, &["id"], vec![row(1, "b")], "two");
    a.remote_add("origin", "mem://x").unwrap();
    a.push(&mut t, "origin", "main", false).unwrap();

    let mut b = VcStore::new("main");
    b.clone_remote(&mut t, "mem://x", true).unwrap();
    assert!(b.get_commit(&second).is_none());
    let mut origin = OriginSource::new(t);
    b.materialize(&mut origin).unwrap();
    assert_eq!(b.lazy_origin(), None);
    assert_eq!(b.get_commit(&first), a.get_commit(&first));
    assert_eq!(b.get_commit(&second), a.get_commit(&second));
    assert_eq!(b.table_rows("t", &first), Some(vec![row(1, "a")]));
    assert_eq!(b.table_rows("t", &second), Some(vec![row(1, "b")]));
}

#[test]
fn a_written_revision_parses_back() {
    for spec in [
        "HEAD",
        "head",
        "working",
        "staged",
        "main",
        "main^2~1",
        "main~03",
        "a.b..c",
        "a...b",
        "a....b",
        "a..b..c",
        "a..b...c..d",
        "0123456789abcdef0123456789abcdef01234567",
    ] {
        let r = parse_revision(spec).unwrap();
        assert_eq!(parse_revision(&r.to_string()).unwrap(), r, "{spec}");
    }
    assert_eq!(parse_revision("main~03").unwrap().to_string(), "main~3");
}

#[test]
fn exchanging_the_sides_exchanges_them_in_conflicts() {
    let pk = names(&["id"]);
    let cols = names(&["id", "v"]);
    let base = vec![row(1, "a"), row(2, "b")];
    let one = vec![row(1, "x"), row(2, "b"), row(3, "c")];
    let other = vec![row(1, "y")];
    let left = three_way_row_merge(&base, &one, &other, &pk, &cols);
    let right = three_way_row_merge(&base, &other, &one, &pk, &cols);
    assert_eq!(left.rows, right.rows);
    assert_eq!(left.conflicts.len(), 1);
    assert_eq!(left.conflicts[0].1.ours, right.conflicts[0].1.theirs);
    assert_eq!(left.conflicts[0].1.theirs, right.conflicts[0].1.ours);
    assert_eq!(left.conflicts[0].1.pk, right.conflicts[0].1.pk);
}

#[test]
fn sameness_of_schemas_looks_past_case_and_order() {
    let a = parse_schema("CREATE TABLE t (id integer, v text, CHECK (id > 0), UNIQUE (v))").unwrap();
    let b = parse_schema("CREATE TABLE u (id INTEGER, v Text, UNIQUE (v), CHECK (id > 0))").unwrap();
    let c = parse_schema("CREATE TABLE w (id Integer, v TEXT, UNIQUE (v), CHECK (id > 0))").unwrap();
    let d = parse_schema("CREATE TABLE t (id INTEGER, v BLOB, UNIQUE (v), CHECK (id > 0))").unwrap();
    assert!(same_schema(&a, &b));
    assert!(same_schema(&b, &c));
    assert!(same_schema(&a, &c));
    assert!(!same_schema(&a, &d));
    let mut e = a.clone();
    e.columns[1].decl = "  TEXT ".to_string();
    assert!(same_schema(&a, &e));
}

fn snapshot(rows: Vec<VcRow>) -> TableSnapshot {
    TableSnapshot {
        columns: names(&["id", "v"]),
        pk: names(&["id"]),
        rows,
        schema_sql: String::new(),
    }
}

#[test]
fn rows_with_distinct_keys_are_written_in_one_order() {
    let owner = CommitId([9; 20]);
    let (id, bytes) = encode_snapshot_record(
        &owner,
        "t",
        &snapshot(vec![row(3, "c"), row(1, "a"), row(2, "b")]),
    );
    let (other, same) = encode_snapshot_record(
        &owner,
        "t",
        &snapshot(vec![row(1, "a"), row(2, "b"), row(3, "c")]),
    );
    assert_eq!(id, other);
    assert_eq!(bytes, same);
}

#[test]
fn cut_or_longer_records_are_refused() {
    let (_, bytes) = encode_snapshot_record(&CommitId([9; 20]), "t", &snapshot(vec![row(1, "a")]));
    assert!(decode_snapshot_record(&bytes).is_ok());
    for n in 0..bytes.len() {
        assert!(decode_snapshot_record(&bytes[..n]).is_err());
    }
    let mut longer = bytes.clone();
    longer.push(0);
    assert!(decode_snapshot_record(&longer).is_err());
}

#[test]
fn damaged_branch_tables_are_refused() {
    let bytes = encode_refs(&RemoteRefs {
        default_branch: "main".to_string(),
        branches: vec![("main".to_string(), CommitId([1; 20]))],
    });
    assert!(decode_refs(&bytes).is_ok());
    for n in 0..bytes.len() {
        assert!(decode_refs(&bytes[..n]).is_err());
    }
    let mut longer = bytes.clone();
    longer.push(0);
    assert!(decode_refs(&longer).is_err());
    let mut other = bytes;
    other[0] = other[0].wrapping_add(1);
    assert!(decode_refs(&other).is_err());
}

#[test]
fn each_credential_is_listed_once() {
    let mut s = MemCredStore::new();
    let a = s.issue().kid;
    let b = s.issue().kid;
    let c = s.issue().kid;
    s.set_active(&b).unwrap();
    assert_eq!(s.list(), vec![b.clone(), a.clone(), c.clone()]);
    s.remove(&b).unwrap();
    assert_eq!(s.list(), vec![a, c]);
}

#[test]
fn credentials_are_listed_as_they_were_left() {
    let mut s = MemCredStore::new();
    s.set_now(7);
    let a = s.issue().kid;
    assert_eq!(s.list(), vec![a.clone()]);
    s.set_now(8);
    let b = s.issue().kid;
    assert_eq!(s.list(), vec![b.clone(), a.clone()]);
    s.set_active(&a).unwrap();
    let c = s.issue().kid;
    assert_eq!(s.list(), vec![c.clone(), a.clone(), b.clone()]);
    s.remove(&a).unwrap();
    assert_eq!(s.active(), Some(c.clone()));
    assert_eq!(s.list(), vec![c.clone(), b.clone()]);
    assert_eq!(s.set_active(&a), Err(VersionError::NoSuchCredential));
    assert_eq!(s.remove(&a), Err(VersionError::NoSuchCredential));
    s.remove(&c).unwrap();
    assert_eq!(s.active(), None);
    assert_eq!(s.list(), vec![b]);
}

/// A source whose answers are empty.
struct Silent;

impl ChunkSource for Silent {
    type State = ();

    fn get(&mut self, id: SourceId) -> VersionResult<Vec<u8>> {
        Err(VersionError::ChunkNotFound(id.to_hex()))
    }

    fn get_many(&mut self, _ids: &Vec<SourceId>) -> VersionResult<Vec<Option<Vec<u8>>>> {
        Ok(Vec::new())
    }
}

#[test]
fn an_answer_that_ends_early_lacks_the_rest() {
    let tip = CommitId([5; 20]);
    let mut s = VcStore::new("main");
    assert_eq!(
        s.hydrate_with(&mut Silent, tip),
        Err(VersionError::ChunkNotFound(tip.to_hex()))
    );
    assert!(s.get_commit(&tip).is_none());
}

/// Stage, commit and ask through the operations alone.
fn through_operations<V: VcOperations>(vc: &mut V) -> (usize, CommitId, Option<CommitId>) {
    let staged = vc.add(&["t"]).unwrap();
    let id = vc.commit("seed", None, false, false).unwrap();
    vc.create_branch("other").unwrap();
    let base = vc.merge_base("main", "other").unwrap();
    (staged, id, base)
}

#[test]
fn the_operations_are_those_of_the_repository() {
    let mut s = store();
    s.apply_work(
        "t",
        names(&["id", "v"]),
        names(&["id"]),
        vec![row(1, "a")],
        String::new(),
    );
    s.track_table("t");
    let (staged, id, base) = through_operations(&mut s);
    assert_eq!(staged, 1);
    assert_eq!(s.head_commit(), Some(id));
    assert_eq!(base, Some(id));
    assert_eq!(VcOperations::list_branches(&s), names(&["main", "other"]));
    assert_eq!(
        VcOperations::gc(&mut s),
        Ok("0 chunks removed, 2 chunks kept".to_string())
    );
}
