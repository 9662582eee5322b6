//! The three-way merge of whole sets of tables: schemas first, then rows.

use vstd::prelude::*;

use crate::assoc::AssocMap;
use crate::conflicts::{ConflictEntry, ConflictKind, EntryModel};
use crate::constraints::column_names;
use crate::merge::{find_column, three_way_row_merge, MergeOutcome};
use crate::merge_schema::{
    merge_schema, parse_schema, position_in_key, ColIR, ColModel, SchemaDecision, SchemaIR,
    SchemaModel,
};
use crate::model::{VersionError, VersionResult};
use crate::names::add_keys;
use crate::staging::{SnapModel, TableSnapshot};
use crate::text::{cat3, insert_sorted, join, trim, upper, Dup, Same};
use crate::values::{CellModel, RowModel, VcRow, VcValue};

verus! {

broadcast use crate::text::lemma_bytes_deep_view;

/// A set of tables by name.
pub type Tables = AssocMap<String, TableSnapshot>;

/// What a set of tables stands for.
pub type TablesModel = Map<Seq<char>, SnapModel>;

/// An error of the version-control layer, in the model.
pub type Fault = VersionError<Seq<char>>;

// ---------------------------------------------------------------------------
// The schema of a snapshot
// ---------------------------------------------------------------------------

/// A plain text column of a table with this primary key.
pub open spec fn plain_column(name: Seq<char>, pk: Seq<Seq<char>>) -> ColModel {
    ColModel {
        name,
        decl: "TEXT"@,
        notnull: false,
        dflt: None,
        pk_pos: crate::merge_schema::key_position(pk, name),
    }
}

/// The schema of a snapshot: what its statement says, or plain columns where
/// there is no statement. A statement that does not parse is refused.
pub open spec fn schema_for(name: Seq<char>, snap: SnapModel) -> Result<SchemaModel, Fault> {
    if crate::text::trimmed(snap.schema_sql).len() == 0 {
        Ok(
            SchemaModel {
                table: name,
                columns: snap.columns.map_values(|c: Seq<char>| plain_column(c, snap.pk)),
                pk: snap.pk,
                sql: snap.schema_sql,
                constraints: seq![],
                strict: false,
            },
        )
    } else {
        match crate::merge_schema::schema_of(snap.schema_sql) {
            Some(s) => Ok(s),
            None => Err(VersionError::InvalidSchema(name)),
        }
    }
}

/// The schema of a snapshot.
pub fn schema_of(name: &str, snap: &TableSnapshot) -> (r: VersionResult<SchemaIR>)
    ensures
        crate::model::outcome(r) == schema_for(name@, snap.deep_view()),
{
    let body = trim(snap.schema_sql.as_str());
    if body.as_str().is_empty() {
        let mut columns: Vec<ColIR> = Vec::new();
        let mut i: usize = 0;
        while i < snap.columns.len()
            invariant
                i <= snap.columns@.len(),
                columns@.len() == i,
                forall|j: int|
                    0 <= j < i ==> (#[trigger] columns@[j]).deep_view() == plain_column(
                        snap.columns@[j]@,
                        snap.pk.deep_view(),
                    ),
            decreases snap.columns.len() - i,
        {
            columns.push(
                ColIR {
                    name: snap.columns[i].clone(),
                    decl: "TEXT".to_owned(),
                    notnull: false,
                    dflt: None,
                    pk_pos: position_in_key(&snap.pk, snap.columns[i].as_str()),
                },
            );
            i = i + 1;
        }
        assert(columns.deep_view() =~= snap.deep_view().columns.map_values(
            |c: Seq<char>| plain_column(c, snap.pk.deep_view()),
        ));
        let constraints: Vec<String> = Vec::new();
        assert(constraints.deep_view() =~= seq![]);
        return Ok(
            SchemaIR {
                table: name.to_owned(),
                columns,
                pk: snap.pk.dup(),
                sql: snap.schema_sql.clone(),
                constraints,
                strict: false,
            },
        );
    }
    match parse_schema(snap.schema_sql.as_str()) {
        Some(s) => Ok(s),
        None => Err(VersionError::InvalidSchema(name.to_owned())),
    }
}

/// The schema of a side that may not have the table.
pub open spec fn side_schema(name: Seq<char>, snap: Option<SnapModel>) -> Result<
    Option<SchemaModel>,
    Fault,
> {
    match snap {
        None => Ok(None),
        Some(s) => match schema_for(name, s) {
            Ok(x) => Ok(Some(x)),
            Err(e) => Err(e),
        },
    }
}

/// The schema of a side that may not have the table.
fn schema_of_side(name: &str, snap: Option<&TableSnapshot>) -> (r: VersionResult<Option<SchemaIR>>)
    ensures
        crate::model::outcome(r) == side_schema(name@, snap.deep_view()),
{
    match snap {
        None => Ok(None),
        Some(s) => match schema_of(name, s) {
            Ok(x) => Ok(Some(x)),
            Err(e) => Err(e),
        },
    }
}

// ---------------------------------------------------------------------------
// The statement of a merged schema
// ---------------------------------------------------------------------------

/// A quoted name.
pub open spec fn quoted(name: Seq<char>) -> Seq<char> {
    "\""@ + name + "\""@
}

/// Does a declaration name a primary key of its own?
pub open spec fn inline_pk(c: ColModel) -> bool {
    crate::text::find_from(crate::text::uppercase(c.decl), "PRIMARY KEY"@, 0) is Some
}

/// The parts of a merged statement: columns, a primary key where no column
/// declares one, and the constraints.
pub open spec fn sql_parts(ir: SchemaModel) -> Seq<Seq<char>> {
    let columns = ir.columns.map_values(|c: ColModel| crate::merge_schema::column_text(c));
    let own = exists|i: int| 0 <= i < ir.columns.len() && inline_pk(#[trigger] ir.columns[i]);
    let key = if ir.pk.len() > 0 && !own {
        seq![
            "PRIMARY KEY ("@ + crate::text::joined(
                ir.pk.map_values(|p: Seq<char>| quoted(p)),
                ", "@,
            ) + ")"@,
        ]
    } else {
        seq![]
    };
    columns + key + ir.constraints
}

/// The statement of a merged schema.
pub open spec fn merged_statement(ir: SchemaModel) -> Seq<char> {
    let sql = "CREATE TABLE \""@ + ir.table + "\" ("@ + crate::text::joined(sql_parts(ir), ", "@)
        + ")"@;
    if ir.strict {
        sql + " STRICT"@
    } else {
        sql
    }
}

fn has_inline_pk(columns: &Vec<ColIR>) -> (r: bool)
    ensures
        r == exists|i: int|
            0 <= i < columns.deep_view().len() && inline_pk(#[trigger] columns.deep_view()[i]),
{
    let ghost m = columns.deep_view();
    let pat = crate::text::chars_of("PRIMARY KEY");
    let mut i: usize = 0;
    while i < columns.len()
        invariant
            i <= columns@.len(),
            m == columns.deep_view(),
            pat@ == "PRIMARY KEY"@,
            forall|j: int| 0 <= j < i ==> !inline_pk(#[trigger] m[j]),
        decreases columns.len() - i,
    {
        assert(m[i as int] == columns@[i as int].deep_view());
        let up = upper(columns[i].decl.as_str());
        let v = crate::text::chars_of(up.as_str());
        if crate::text::find_pat(&v, &pat, 0).is_some() {
            return true;
        }
        i = i + 1;
    }
    false
}

fn quoted_list(names: &Vec<String>) -> (r: Vec<String>)
    ensures
        r.deep_view() == names.deep_view().map_values(|p: Seq<char>| quoted(p)),
{
    let mut out: Vec<String> = Vec::new();
    let mut i: usize = 0;
    while i < names.len()
        invariant
            i <= names@.len(),
            out@.len() == i,
            forall|j: int| 0 <= j < i ==> (#[trigger] out@[j])@ == quoted(names@[j]@),
        decreases names.len() - i,
    {
        out.push(cat3("\"", names[i].as_str(), "\""));
        i = i + 1;
    }
    assert(out.deep_view() =~= names.deep_view().map_values(|p: Seq<char>| quoted(p)));
    out
}

/// The statement of a merged schema.
fn merged_sql(ir: &SchemaIR) -> (r: String)
    ensures
        r@ == merged_statement(ir.deep_view()),
{
    let ghost m = ir.deep_view();
    let mut parts: Vec<String> = Vec::new();
    let mut i: usize = 0;
    while i < ir.columns.len()
        invariant
            i <= ir.columns@.len(),
            m == ir.deep_view(),
            parts@.len() == i,
            forall|j: int|
                0 <= j < i ==> (#[trigger] parts@[j])@ == crate::merge_schema::column_text(
                    m.columns[j],
                ),
        decreases ir.columns.len() - i,
    {
        assert(m.columns[i as int] == ir.columns@[i as int].deep_view());
        let mut t = cat3("\"", ir.columns[i].name.as_str(), "\" ");
        t.append(ir.columns[i].decl.as_str());
        parts.push(t);
        i = i + 1;
    }
    let ghost columns = m.columns.map_values(|c: ColModel| crate::merge_schema::column_text(c));
    assert(parts.deep_view() =~= columns);
    let own = has_inline_pk(&ir.columns);
    if ir.pk.len() > 0 && !own {
        let list = quoted_list(&ir.pk);
        let names = join(&list, ", ");
        let t = cat3("PRIMARY KEY (", names.as_str(), ")");
        let ghost x = t@;
        parts.push(t);
        assert(parts.deep_view() =~= columns + seq![x]);
    } else {
        assert(parts.deep_view() =~= columns + seq![]);
    }
    let ghost head = parts.deep_view();
    let mut k: usize = 0;
    while k < ir.constraints.len()
        invariant
            k <= ir.constraints@.len(),
            m == ir.deep_view(),
            parts.deep_view() == head + m.constraints.take(k as int),
        decreases ir.constraints.len() - k,
    {
        let ghost before = parts.deep_view();
        parts.push(ir.constraints[k].clone());
        proof {
            assert(m.constraints[k as int] == ir.constraints@[k as int]@);
            assert(parts.deep_view() =~= before.push(m.constraints[k as int]));
            assert(parts.deep_view() =~= head + m.constraints.take(k + 1));
        }
        k = k + 1;
    }
    assert(m.constraints.take(k as int) =~= m.constraints);
    assert(parts.deep_view() =~= sql_parts(m));
    let body = join(&parts, ", ");
    let mut sql = cat3("CREATE TABLE \"", ir.table.as_str(), "\" (");
    sql.append(body.as_str());
    sql.append(")");
    if ir.strict {
        sql.append(" STRICT");
    }
    sql
}

// ---------------------------------------------------------------------------
// Projection
// ---------------------------------------------------------------------------

/// A row in another order of columns; cells it does not have are null.
pub open spec fn project_row(row: RowModel, from: Seq<Seq<char>>, to: Seq<Seq<char>>) -> RowModel {
    to.map_values(
        |c: Seq<char>|
            match crate::constraints::named_cell(row, from, c) {
                Some(v) => v,
                None => CellModel::Null,
            },
    )
}

/// The rows of a side in the order of the merged columns.
pub open spec fn projected(snap: Option<SnapModel>, to: Seq<Seq<char>>) -> Seq<RowModel> {
    match snap {
        None => seq![],
        Some(s) => if s.columns == to {
            s.rows
        } else {
            s.rows.map_values(|r: RowModel| project_row(r, s.columns, to))
        },
    }
}

fn project_one(row: &VcRow, from: &Vec<String>, to: &Vec<String>) -> (r: VcRow)
    ensures
        r.deep_view() == project_row(row.deep_view(), from.deep_view(), to.deep_view()),
{
    let ghost m = row.deep_view();
    let ghost f = from.deep_view();
    let ghost t = to.deep_view();
    let mut values: Vec<VcValue> = Vec::new();
    let mut i: usize = 0;
    while i < to.len()
        invariant
            i <= to@.len(),
            m == row.deep_view(),
            f == from.deep_view(),
            t == to.deep_view(),
            values@.len() == i,
            forall|j: int|
                0 <= j < i ==> (#[trigger] values@[j]).deep_view() == project_row(m, f, t)[j],
        decreases to.len() - i,
    {
        assert(t[i as int] == to@[i as int]@);
        let v = match find_column(from, to[i].as_str()) {
            Some(k) => {
                if k < row.values.len() {
                    assert(m[k as int] == row.values@[k as int].deep_view());
                    row.values[k].dup()
                } else {
                    VcValue::Null
                }
            },
            None => VcValue::Null,
        };
        values.push(v);
        i = i + 1;
    }
    let r = VcRow::new(values);
    assert(r.deep_view() =~= project_row(m, f, t));
    r
}

/// The rows of a side in the order of the merged columns.
fn project(snap: Option<&TableSnapshot>, to: &Vec<String>) -> (r: Vec<VcRow>)
    ensures
        r.deep_view() == projected(snap.deep_view(), to.deep_view()),
{
    match snap {
        None => {
            let none: Vec<VcRow> = Vec::new();
            assert(none.deep_view() =~= seq![]);
            none
        },
        Some(s) => {
            if s.columns.same(to) {
                return s.rows.dup();
            }
            let ghost m = s.deep_view();
            let ghost t = to.deep_view();
            let mut out: Vec<VcRow> = Vec::new();
            let mut i: usize = 0;
            while i < s.rows.len()
                invariant
                    i <= s.rows@.len(),
                    m == s.deep_view(),
                    t == to.deep_view(),
                    out@.len() == i,
                    forall|j: int|
                        0 <= j < i ==> (#[trigger] out@[j]).deep_view() == project_row(
                            m.rows[j],
                            m.columns,
                            t,
                        ),
                decreases s.rows.len() - i,
            {
                assert(m.rows[i as int] == s.rows@[i as int].deep_view());
                out.push(project_one(&s.rows[i], &s.columns, to));
                i = i + 1;
            }
            assert(out.deep_view() =~= m.rows.map_values(
                |r: RowModel| project_row(r, m.columns, t),
            ));
            out
        },
    }
}

// ---------------------------------------------------------------------------
// One table
// ---------------------------------------------------------------------------

/// Rows by key; a later row of a key replaces an earlier one.
pub open spec fn by_key(rows: Seq<(RowModel, RowModel)>) -> Map<RowModel, RowModel>
    decreases rows.len(),
{
    if rows.len() == 0 {
        Map::empty()
    } else {
        by_key(rows.drop_last()).insert(rows.last().0, rows.last().1)
    }
}

/// Our rows of the conflicting keys.
pub open spec fn our_images(
    m: Map<RowModel, RowModel>,
    conflicts: Seq<(Seq<char>, crate::merge::ConflictModel)>,
) -> Map<RowModel, RowModel>
    decreases conflicts.len(),
{
    if conflicts.len() == 0 {
        m
    } else {
        let before = our_images(m, conflicts.drop_last());
        let c = conflicts.last().1;
        match c.ours {
            Some(row) => before.insert(c.pk, row),
            None => before,
        }
    }
}

/// The values of a map in the order of its keys.
pub open spec fn values_in_order(m: Map<RowModel, RowModel>) -> Seq<RowModel> {
    crate::merge::in_order(m.dom()).map_values(|k: RowModel| m[k])
}

/// Our rows of the conflicts.
pub open spec fn our_rows(conflicts: Seq<(Seq<char>, crate::merge::ConflictModel)>) -> Seq<RowModel>
    decreases conflicts.len(),
{
    if conflicts.len() == 0 {
        seq![]
    } else {
        match conflicts.last().1.ours {
            Some(row) => our_rows(conflicts.drop_last()).push(row),
            None => our_rows(conflicts.drop_last()),
        }
    }
}

/// The working rows of a merged table. A conflicting key keeps our row, so that
/// no row that has to be chosen goes missing. Without a primary key the rows are a
/// list, in which none collapses with another.
pub open spec fn working_rows(o: crate::merge::MergeModel, pk: Seq<Seq<char>>) -> Seq<RowModel> {
    if pk.len() == 0 {
        o.rows.map_values(|r: (RowModel, RowModel)| r.1) + our_rows(o.conflicts)
    } else {
        values_in_order(our_images(by_key(o.rows), o.conflicts))
    }
}

/// The conflict entry of a conflicting row.
pub open spec fn row_entry(table: Seq<char>, c: crate::merge::ConflictModel) -> EntryModel {
    EntryModel {
        table,
        pk: c.pk,
        base: c.base,
        ours: c.ours,
        theirs: c.theirs,
        kind: ConflictKind::Rows,
        ours_schema: None,
        theirs_schema: None,
    }
}

/// The conflict entry of conflicting schemas.
pub open spec fn schema_entry(
    table: Seq<char>,
    detail: Seq<char>,
    ours: Option<SnapModel>,
    theirs: Option<SnapModel>,
) -> EntryModel {
    EntryModel {
        table,
        pk: seq![],
        base: None,
        ours: None,
        theirs: None,
        kind: ConflictKind::Schema(detail),
        ours_schema: ours,
        theirs_schema: theirs,
    }
}

/// What a merge counted for a table.
#[derive(Debug, Clone, Copy, PartialEq, Eq, Structural)]
pub struct MergeTableStats {
    pub rows_merged: i64,
    pub rows_conflicted: i64,
    pub schema_conflict: bool,
}

impl DeepView for MergeTableStats {
    type V = MergeTableStats;

    open spec fn deep_view(&self) -> MergeTableStats {
        *self
    }
}

impl Dup for MergeTableStats {
    fn dup(&self) -> (r: Self) {
        *self
    }
}

/// A merged set of tables: their working contents, the conflicts and the counts.
pub struct MergedTables {
    pub work: Tables,
    pub conflicts: Vec<ConflictEntry>,
    pub stats: AssocMap<String, MergeTableStats>,
}

/// What a merged set of tables stands for.
pub struct MergedModel {
    pub work: TablesModel,
    pub conflicts: Seq<EntryModel>,
    pub stats: Map<Seq<char>, MergeTableStats>,
}

impl DeepView for MergedTables {
    type V = MergedModel;

    open spec fn deep_view(&self) -> MergedModel {
        MergedModel {
            work: self.work.deep_view(),
            conflicts: self.conflicts.deep_view(),
            stats: self.stats.deep_view(),
        }
    }
}

/// Add a table whose schemas conflict: our contents stay in place.
pub open spec fn with_schema_conflict(
    acc: MergedModel,
    name: Seq<char>,
    detail: Seq<char>,
    o: Option<SnapModel>,
    t: Option<SnapModel>,
) -> MergedModel {
    MergedModel {
        work: match o {
            Some(s) => acc.work.insert(name, s),
            None => acc.work,
        },
        conflicts: acc.conflicts.push(schema_entry(name, detail, o, t)),
        stats: acc.stats.insert(
            name,
            MergeTableStats { rows_merged: 0, rows_conflicted: 0, schema_conflict: true },
        ),
    }
}

/// The row merge of a table whose merged schema is known.
pub open spec fn rows_of(
    ir: SchemaModel,
    b: Option<SnapModel>,
    o: Option<SnapModel>,
    t: Option<SnapModel>,
) -> crate::merge::MergeModel {
    let columns = crate::constraints::names(ir.columns);
    crate::merge::row_merge(
        projected(b, columns),
        projected(o, columns),
        projected(t, columns),
        ir.pk,
        columns,
    )
}

/// Do the sides have rows of their own under each key of the merged schema?
pub open spec fn rows_mergeable(
    ir: SchemaModel,
    b: Option<SnapModel>,
    o: Option<SnapModel>,
    t: Option<SnapModel>,
) -> bool {
    let columns = crate::constraints::names(ir.columns);
    crate::merge::mergeable(
        projected(b, columns),
        projected(o, columns),
        projected(t, columns),
        ir.pk,
        columns,
    )
}

/// Add a table whose schemas merged.
pub open spec fn with_merged_rows(
    acc: MergedModel,
    name: Seq<char>,
    ir: SchemaModel,
    out: crate::merge::MergeModel,
) -> MergedModel {
    let rows = working_rows(out, ir.pk);
    MergedModel {
        work: acc.work.insert(
            name,
            SnapModel {
                columns: crate::constraints::names(ir.columns),
                pk: ir.pk,
                rows,
                schema_sql: merged_statement(ir),
            },
        ),
        conflicts: acc.conflicts + out.conflicts.map_values(
            |c: (Seq<char>, crate::merge::ConflictModel)| row_entry(name, c.1),
        ),
        stats: acc.stats.insert(
            name,
            MergeTableStats {
                rows_merged: rows.len() as i64,
                rows_conflicted: out.conflicts.len() as i64,
                schema_conflict: false,
            },
        ),
    }
}

/// Merge one table into what is merged already. A table that neither side has
/// is gone. Sides whose rows repeat a key are refused: committed rows do not.
pub open spec fn merge_table(
    acc: MergedModel,
    name: Seq<char>,
    b: Option<SnapModel>,
    o: Option<SnapModel>,
    t: Option<SnapModel>,
) -> Result<MergedModel, Fault> {
    if o is None && t is None {
        Ok(acc)
    } else {
        match side_schema(name, b) {
            Err(e) => Err(e),
            Ok(bs) => match side_schema(name, o) {
                Err(e) => Err(e),
                Ok(os) => match side_schema(name, t) {
                    Err(e) => Err(e),
                    Ok(ts) => match crate::merge_schema::schema_merge(bs, os, ts) {
                        SchemaDecision::Conflict(detail) => Ok(
                            with_schema_conflict(acc, name, detail, o, t),
                        ),
                        SchemaDecision::Clean(ir) => if rows_mergeable(ir, b, o, t) {
                            Ok(with_merged_rows(acc, name, ir, rows_of(ir, b, o, t)))
                        } else {
                            Err(VersionError::InvalidSchema(name))
                        },
                    },
                },
            },
        }
    }
}

/// The table of a name.
pub open spec fn table_in(m: TablesModel, name: Seq<char>) -> Option<SnapModel> {
    crate::merge::lookup(m, name)
}

/// Merge the tables from place `i` of a list on.
pub open spec fn merge_from(
    base: TablesModel,
    ours: TablesModel,
    theirs: TablesModel,
    list: Seq<Seq<char>>,
    i: int,
    acc: MergedModel,
) -> Result<MergedModel, Fault>
    decreases list.len() - i,
{
    if i >= list.len() {
        Ok(acc)
    } else {
        match merge_table(
            acc,
            list[i],
            table_in(base, list[i]),
            table_in(ours, list[i]),
            table_in(theirs, list[i]),
        ) {
            Err(e) => Err(e),
            Ok(next) => merge_from(base, ours, theirs, list, i + 1, next),
        }
    }
}

/// The three-way merge of sets of tables, name by name.
pub open spec fn merge_tables(base: TablesModel, ours: TablesModel, theirs: TablesModel) -> Result<
    MergedModel,
    Fault,
> {
    merge_from(
        base,
        ours,
        theirs,
        crate::names::ordered(base.dom().union(ours.dom()).union(theirs.dom())),
        0,
        MergedModel { work: Map::empty(), conflicts: seq![], stats: Map::empty() },
    )
}

/// The first schema conflict: its table and detail.
pub open spec fn schema_clash(entries: Seq<EntryModel>) -> Option<(Seq<char>, Seq<char>)>
    decreases entries.len(),
{
    if entries.len() == 0 {
        None
    } else {
        match entries[0].kind {
            ConflictKind::Schema(detail) => Some((entries[0].table, detail)),
            ConflictKind::Rows => schema_clash(entries.drop_first()),
        }
    }
}

/// The number of tables with conflicts.
pub open spec fn conflicted_tables(entries: Seq<EntryModel>) -> nat {
    entries.map_values(|e: EntryModel| e.table).to_set().len()
}

// ---------------------------------------------------------------------------
// Code
// ---------------------------------------------------------------------------

fn has_distinct_keys(rows: &Vec<VcRow>, pk: &Vec<String>, columns: &Vec<String>) -> (r: bool)
    ensures
        r == crate::merge::distinct_keys(rows.deep_view(), pk.deep_view(), columns.deep_view()),
{
    let ghost m = rows.deep_view();
    let ghost p = pk.deep_view();
    let ghost c = columns.deep_view();
    let mut keys: Vec<Vec<VcValue>> = Vec::new();
    let mut i: usize = 0;
    while i < rows.len()
        invariant
            i <= rows@.len(),
            m == rows.deep_view(),
            p == pk.deep_view(),
            c == columns.deep_view(),
            keys.deep_view().len() == i,
            forall|j: int|
                0 <= j < i ==> #[trigger] keys.deep_view()[j] == crate::merge::pk_cells(m[j], p, c),
            forall|a: int, b: int|
                0 <= a < b < i ==> crate::merge::pk_cells(#[trigger] m[a], p, c)
                    != crate::merge::pk_cells(#[trigger] m[b], p, c),
        decreases rows.len() - i,
    {
        let ghost got = keys.deep_view();
        assert(m[i as int] == rows@[i as int].deep_view());
        let key = crate::merge::extract_pk(&rows[i], pk, columns);
        let ghost x = key.deep_view();
        if crate::constraints::has_key(&keys, &key) {
            proof {
                let j = choose|j: int| 0 <= j < got.len() && got[j] == x;
                assert(crate::merge::pk_cells(m[j], p, c) == crate::merge::pk_cells(
                    m[i as int],
                    p,
                    c,
                ));
            }
            return false;
        }
        assert forall|a: int| 0 <= a < i implies crate::merge::pk_cells(#[trigger] m[a], p, c)
            != crate::merge::pk_cells(m[i as int], p, c) by {
            assert(got[a] == crate::merge::pk_cells(m[a], p, c));
        }
        keys.push(key);
        assert(keys.deep_view() =~= got.push(x));
        i = i + 1;
    }
    true
}

fn can_merge(
    base: &Vec<VcRow>,
    ours: &Vec<VcRow>,
    theirs: &Vec<VcRow>,
    pk: &Vec<String>,
    columns: &Vec<String>,
) -> (r: bool)
    ensures
        r == crate::merge::mergeable(
            base.deep_view(),
            ours.deep_view(),
            theirs.deep_view(),
            pk.deep_view(),
            columns.deep_view(),
        ),
{
    if pk.len() == 0 {
        true
    } else if theirs.same(base) {
        has_distinct_keys(ours, pk, columns)
    } else if ours.same(base) {
        has_distinct_keys(theirs, pk, columns)
    } else {
        has_distinct_keys(base, pk, columns) && has_distinct_keys(ours, pk, columns)
            && has_distinct_keys(theirs, pk, columns)
    }
}

/// The working rows of a merged table without a primary key.
fn list_rows(out: &MergeOutcome) -> (r: Vec<VcRow>)
    ensures
        r.deep_view() == working_rows(out.deep_view(), seq![]),
{
    let ghost m = out.deep_view();
    let ghost f = |r: (RowModel, RowModel)| r.1;
    let mut rows: Vec<VcRow> = Vec::new();
    let mut i: usize = 0;
    while i < out.rows.len()
        invariant
            i <= out.rows@.len(),
            m == out.deep_view(),
            rows@.len() == i,
            forall|j: int| 0 <= j < i ==> (#[trigger] rows@[j]).deep_view() == m.rows[j].1,
        decreases out.rows.len() - i,
    {
        assert(m.rows[i as int] == out.rows@[i as int].deep_view());
        rows.push(out.rows[i].1.dup());
        i = i + 1;
    }
    let ghost start = rows.deep_view();
    assert(start =~= m.rows.map_values(f));
    let mut k: usize = 0;
    assert(m.conflicts.take(0) =~= seq![]);
    assert(start + our_rows(m.conflicts.take(0)) =~= start);
    while k < out.conflicts.len()
        invariant
            k <= out.conflicts@.len(),
            m == out.deep_view(),
            rows.deep_view() == start + our_rows(m.conflicts.take(k as int)),
        decreases out.conflicts.len() - k,
    {
        let ghost before = rows.deep_view();
        assert(m.conflicts.take(k + 1).drop_last() =~= m.conflicts.take(k as int));
        assert(m.conflicts.take(k + 1).last() == out.conflicts@[k as int].deep_view());
        if let Some(row) = &out.conflicts[k].1.ours {
            rows.push(row.dup());
            assert(rows.deep_view() =~= before.push(row.deep_view()));
        }
        assert(rows.deep_view() =~= start + our_rows(m.conflicts.take(k + 1)));
        k = k + 1;
    }
    assert(m.conflicts.take(k as int) =~= m.conflicts);
    rows
}

/// The working rows of a merged table.
fn keep_rows(out: &MergeOutcome, pk: &Vec<String>) -> (r: Vec<VcRow>)
    ensures
        r.deep_view() == working_rows(out.deep_view(), pk.deep_view()),
{
    assert(pk.deep_view().len() == pk@.len());
    if pk.len() == 0 {
        return list_rows(out);
    }
    let ghost m = out.deep_view();
    let mut keyed: AssocMap<Vec<VcValue>, VcRow> = AssocMap::new();
    let mut i: usize = 0;
    assert(m.rows.take(0) =~= seq![]);
    while i < out.rows.len()
        invariant
            i <= out.rows@.len(),
            m == out.deep_view(),
            keyed.deep_view() == by_key(m.rows.take(i as int)),
        decreases out.rows.len() - i,
    {
        assert(m.rows.take(i + 1).drop_last() =~= m.rows.take(i as int));
        assert(m.rows.take(i + 1).last() == out.rows@[i as int].deep_view());
        keyed.insert(out.rows[i].0.dup(), out.rows[i].1.dup());
        i = i + 1;
    }
    assert(m.rows.take(i as int) =~= m.rows);
    let ghost start = keyed.deep_view();
    let mut k: usize = 0;
    assert(m.conflicts.take(0) =~= seq![]);
    while k < out.conflicts.len()
        invariant
            k <= out.conflicts@.len(),
            m == out.deep_view(),
            keyed.deep_view() == our_images(start, m.conflicts.take(k as int)),
        decreases out.conflicts.len() - k,
    {
        assert(m.conflicts.take(k + 1).drop_last() =~= m.conflicts.take(k as int));
        assert(m.conflicts.take(k + 1).last() == out.conflicts@[k as int].deep_view());
        let c = &out.conflicts[k].1;
        if let Some(row) = &c.ours {
            keyed.insert(c.pk.dup(), row.dup());
        }
        k = k + 1;
    }
    assert(m.conflicts.take(k as int) =~= m.conflicts);
    let ghost all = keyed.deep_view();
    let keys = crate::merge::sorted_row_keys(&keyed);
    let mut rows: Vec<VcRow> = Vec::new();
    let mut j: usize = 0;
    while j < keys.len()
        invariant
            j <= keys@.len(),
            all == keyed.deep_view(),
            keys.deep_view().to_set() == all.dom(),
            rows@.len() == j,
            forall|q: int|
                0 <= q < j ==> (#[trigger] rows@[q]).deep_view() == all[keys.deep_view()[q]],
        decreases keys.len() - j,
    {
        let ghost key = keys@[j as int].deep_view();
        assert(keys.deep_view()[j as int] == key);
        assert(keys.deep_view().to_set().contains(key));
        match keyed.get(&keys[j]) {
            Some(row) => {
                rows.push(row.dup());
            },
            None => {},
        }
        j = j + 1;
    }
    assert(rows.deep_view() =~= values_in_order(all));
    rows
}

/// The conflict entries of a merged table.
fn push_entries(entries: &mut Vec<ConflictEntry>, name: &str, out: MergeOutcome)
    ensures
        final(entries).deep_view() == old(entries).deep_view()
            + out.deep_view().conflicts.map_values(
            |c: (Seq<char>, crate::merge::ConflictModel)| row_entry(name@, c.1),
        ),
{
    let ghost start = entries.deep_view();
    let ghost m = out.deep_view().conflicts;
    let ghost f = |c: (Seq<char>, crate::merge::ConflictModel)| row_entry(name@, c.1);
    let mut i: usize = 0;
    assert(start + m.map_values(f).take(0) =~= start);
    while i < out.conflicts.len()
        invariant
            i <= out.conflicts@.len(),
            m == out.deep_view().conflicts,
            f == (|c: (Seq<char>, crate::merge::ConflictModel)| row_entry(name@, c.1)),
            entries.deep_view() == start + m.map_values(f).take(i as int),
        decreases out.conflicts.len() - i,
    {
        let ghost before = entries.deep_view();
        assert(m[i as int] == out.conflicts@[i as int].deep_view());
        let c = &out.conflicts[i].1;
        let e = ConflictEntry {
            table: name.to_owned(),
            pk: c.pk.dup(),
            base: c.base.dup(),
            ours: c.ours.dup(),
            theirs: c.theirs.dup(),
            kind: ConflictKind::Rows,
            ours_schema: None,
            theirs_schema: None,
        };
        let ghost x = e.deep_view();
        entries.push(e);
        proof {
            assert(entries.deep_view() =~= before.push(x));
            assert(x == f(m[i as int]));
            assert(entries.deep_view() =~= start + m.map_values(f).take(i + 1));
        }
        i = i + 1;
    }
    assert(m.map_values(f).take(i as int) =~= m.map_values(f));
}

/// Merge one table into what is merged already.
fn merge_one(
    acc: &mut MergedTables,
    name: &String,
    b: Option<&TableSnapshot>,
    o: Option<&TableSnapshot>,
    t: Option<&TableSnapshot>,
) -> (r: VersionResult<()>)
    ensures
        match merge_table(
            old(acc).deep_view(),
            name@,
            b.deep_view(),
            o.deep_view(),
            t.deep_view(),
        ) {
            Ok(m) => r is Ok && final(acc).deep_view() == m,
            Err(e) => r matches Err(x) && x.deep_view() == e,
        },
{
    if o.is_none() && t.is_none() {
        return Ok(());
    }
    let b_ir = match schema_of_side(name.as_str(), b) {
        Ok(x) => x,
        Err(e) => {
            return Err(e);
        },
    };
    let o_ir = match schema_of_side(name.as_str(), o) {
        Ok(x) => x,
        Err(e) => {
            return Err(e);
        },
    };
    let t_ir = match schema_of_side(name.as_str(), t) {
        Ok(x) => x,
        Err(e) => {
            return Err(e);
        },
    };
    match merge_schema(b_ir.as_ref(), o_ir.as_ref(), t_ir.as_ref()) {
        SchemaDecision::Conflict(detail) => {
            add_schema_conflict(acc, name, detail, o, t);
            Ok(())
        },
        SchemaDecision::Clean(ir) => {
            let columns = column_names(&ir.columns);
            let b_rows = project(b, &columns);
            let o_rows = project(o, &columns);
            let t_rows = project(t, &columns);
            if !can_merge(&b_rows, &o_rows, &t_rows, &ir.pk, &columns) {
                return Err(VersionError::InvalidSchema(name.clone()));
            }
            let out = three_way_row_merge(&b_rows, &o_rows, &t_rows, &ir.pk, &columns);
            add_merged_rows(acc, name, &ir, columns, out);
            Ok(())
        },
    }
}

fn add_schema_conflict(
    acc: &mut MergedTables,
    name: &String,
    detail: String,
    o: Option<&TableSnapshot>,
    t: Option<&TableSnapshot>,
)
    ensures
        final(acc).deep_view() == with_schema_conflict(
            old(acc).deep_view(),
            name@,
            detail@,
            o.deep_view(),
            t.deep_view(),
        ),
{
    let ghost before = acc.conflicts.deep_view();
    if let Some(s) = o {
        acc.work.insert(name.clone(), s.dup());
    }
    let ours_schema = match o {
        Some(s) => Some(s.dup()),
        None => None,
    };
    let theirs_schema = match t {
        Some(s) => Some(s.dup()),
        None => None,
    };
    let pk: Vec<VcValue> = Vec::new();
    assert(pk.deep_view() =~= seq![]);
    let e = ConflictEntry {
        table: name.clone(),
        pk,
        base: None,
        ours: None,
        theirs: None,
        kind: ConflictKind::Schema(detail),
        ours_schema,
        theirs_schema,
    };
    let ghost x = e.deep_view();
    acc.conflicts.push(e);
    assert(acc.conflicts.deep_view() =~= before.push(x));
    acc.stats.insert(
        name.clone(),
        MergeTableStats { rows_merged: 0, rows_conflicted: 0, schema_conflict: true },
    );
}

fn add_merged_rows(
    acc: &mut MergedTables,
    name: &String,
    ir: &SchemaIR,
    columns: Vec<String>,
    out: MergeOutcome,
)
    requires
        columns.deep_view() == crate::constraints::names(ir.deep_view().columns),
    ensures
        final(acc).deep_view() == with_merged_rows(
            old(acc).deep_view(),
            name@,
            ir.deep_view(),
            out.deep_view(),
        ),
{
    let rows = keep_rows(&out, &ir.pk);
    assert(rows.deep_view().len() == rows@.len());
    let merged: i64 = rows.len() as i64;
    let conflicted: i64 = out.conflicts.len() as i64;
    assert(out.deep_view().conflicts.len() == out.conflicts@.len());
    acc.work.insert(
        name.clone(),
        TableSnapshot { columns, pk: ir.pk.dup(), rows, schema_sql: merged_sql(ir) },
    );
    push_entries(&mut acc.conflicts, name.as_str(), out);
    acc.stats.insert(
        name.clone(),
        MergeTableStats {
            rows_merged: merged,
            rows_conflicted: conflicted,
            schema_conflict: false,
        },
    );
}

/// The three-way merge of sets of tables.
pub fn merge_snapshots(base: &Tables, ours: &Tables, theirs: &Tables) -> (r: VersionResult<
    MergedTables,
>)
    ensures
        crate::model::outcome(r) == merge_tables(
            base.deep_view(),
            ours.deep_view(),
            theirs.deep_view(),
        ),
{
    let ghost b = base.deep_view();
    let ghost o = ours.deep_view();
    let ghost t = theirs.deep_view();
    let mut names: Vec<String> = Vec::new();
    assert(names.deep_view() =~= seq![]);
    add_keys(&mut names, base);
    add_keys(&mut names, ours);
    add_keys(&mut names, theirs);
    let ghost list = names.deep_view();
    proof {
        assert(list.to_set() =~= b.dom().union(o.dom()).union(t.dom()));
        crate::names::lemma_ordered(list);
    }
    let mut acc = MergedTables {
        work: AssocMap::new(),
        conflicts: Vec::new(),
        stats: AssocMap::new(),
    };
    assert(acc.conflicts.deep_view() =~= seq![]);
    let mut i: usize = 0;
    while i < names.len()
        invariant
            i <= names@.len(),
            b == base.deep_view(),
            o == ours.deep_view(),
            t == theirs.deep_view(),
            list == names.deep_view(),
            merge_from(b, o, t, list, i as int, acc.deep_view()) == merge_tables(b, o, t),
        decreases names.len() - i,
    {
        assert(list[i as int] == names@[i as int]@);
        let bs = base.get(&names[i]);
        let os = ours.get(&names[i]);
        let ts = theirs.get(&names[i]);
        assert(bs.deep_view() == table_in(b, list[i as int]));
        assert(os.deep_view() == table_in(o, list[i as int]));
        assert(ts.deep_view() == table_in(t, list[i as int]));
        match merge_one(&mut acc, &names[i], bs, os, ts) {
            Ok(_) => {},
            Err(e) => {
                return Err(e);
            },
        }
        i = i + 1;
    }
    Ok(acc)
}

/// The first schema conflict: its table and detail.
pub fn schema_conflict(entries: &Vec<ConflictEntry>) -> (r: Option<(String, String)>)
    ensures
        match schema_clash(entries.deep_view()) {
            Some((t, d)) => r matches Some(x) && x.0@ == t && x.1@ == d,
            None => r is None,
        },
{
    let ghost m = entries.deep_view();
    let mut i: usize = 0;
    assert(m.skip(0) =~= m);
    while i < entries.len()
        invariant
            i <= entries@.len(),
            m == entries.deep_view(),
            schema_clash(m.skip(i as int)) == schema_clash(m),
        decreases entries.len() - i,
    {
        assert(m.skip(i as int)[0] == entries@[i as int].deep_view());
        assert(m.skip(i as int).drop_first() =~= m.skip(i + 1));
        match &entries[i].kind {
            ConflictKind::Schema(detail) => {
                return Some((entries[i].table.clone(), detail.clone()));
            },
            ConflictKind::Rows => {},
        }
        i = i + 1;
    }
    assert(m.skip(i as int) =~= seq![]);
    None
}

/// The number of tables with conflicts.
pub fn distinct_conflicted_tables(entries: &Vec<ConflictEntry>) -> (r: usize)
    ensures
        r == conflicted_tables(entries.deep_view()),
{
    let ghost m = entries.deep_view().map_values(|e: EntryModel| e.table);
    let mut tables: Vec<String> = Vec::new();
    let mut i: usize = 0;
    proof {
        assert(tables.deep_view() =~= seq![]);
        assert(tables.deep_view().to_set() =~= m.take(0).to_set());
    }
    while i < entries.len()
        invariant
            i <= entries@.len(),
            m == entries.deep_view().map_values(|e: EntryModel| e.table),
            crate::text::texts_sorted(tables.deep_view()),
            tables.deep_view().to_set() == m.take(i as int).to_set(),
        decreases entries.len() - i,
    {
        insert_sorted(&mut tables, entries[i].table.clone());
        proof {
            assert(entries.deep_view()[i as int] == entries@[i as int].deep_view());
            crate::names::lemma_take_set(m, i as int);
        }
        i = i + 1;
    }
    proof {
        assert(m.take(i as int) =~= m);
        let s = tables.deep_view();
        assert(s.no_duplicates()) by {
            assert forall|a: int, b: int| 0 <= a < b < s.len() implies s[a] != s[b] by {
                crate::text::lemma_text_lt_total(s[a], s[b]);
            }
        }
        s.unique_seq_to_set();
    }
    tables.len()
}

/// The rows of a table as a merge leaves them when only this side moved: as they are
/// without a primary key, else in the order of their keys.
pub open spec fn settled_rows(snap: SnapModel, merged: SnapModel) -> Seq<RowModel> {
    let rows = projected(Some(snap), merged.columns);
    if merged.pk.len() == 0 {
        rows
    } else {
        values_in_order(by_key(crate::merge::side(rows, merged.pk, merged.columns)))
    }
}

/// A table without rows settles as one without rows.
pub proof fn lemma_settled_empty(snap: SnapModel, merged: SnapModel)
    requires
        snap.rows.len() == 0,
    ensures
        settled_rows(snap, merged) == Seq::<RowModel>::empty(),
{
    let rows = projected(Some(snap), merged.columns);
    let under = crate::merge::side(rows, merged.pk, merged.columns);
    assert(rows.len() == 0);
    assert(under.len() == 0);
    assert(rows =~= seq![]);
    let keys = by_key(under).dom();
    let none = Seq::<RowModel>::empty();
    assert(crate::values::rows_increasing(none) && none.to_set() =~= keys);
    let order = crate::merge::in_order(keys);
    if order.len() > 0 {
        assert(order.to_set().contains(order[0]));
    }
}

/// The tables of a list have the rows of one side.
spec fn settled(side: TablesModel, list: Seq<Seq<char>>, n: int, m: MergedModel) -> bool {
    &&& m.conflicts.len() == 0
    &&& forall|t: Seq<char>| #[trigger]
        m.work.dom().contains(t) <==> list.take(n).contains(t)
    &&& forall|t: Seq<char>| #[trigger]
        m.work.dom().contains(t) ==> m.work[t].rows == settled_rows(side[t], m.work[t])
}

proof fn lemma_settled_step(
    base: TablesModel,
    side: TablesModel,
    list: Seq<Seq<char>>,
    i: int,
    acc: MergedModel,
    ours_moved: bool,
)
    requires
        base.dom().subset_of(side.dom()),
        0 <= i < list.len(),
        side.dom().contains(list[i]),
        settled(side, list, i, acc),
    ensures
        ({
            let b = table_in(base, list[i]);
            let x = table_in(side, list[i]);
            let r = if ours_moved {
                merge_table(acc, list[i], b, x, b)
            } else {
                merge_table(acc, list[i], b, b, x)
            };
            r matches Ok(next) ==> settled(side, list, i + 1, next)
        }),
{
    let name = list[i];
    let b = table_in(base, name);
    let x = table_in(side, name);
    let (o, t) = if ours_moved {
        (x, b)
    } else {
        (b, x)
    };
    let r = merge_table(acc, name, b, o, t);
    if let Ok(next) = r {
        let bs = side_schema(name, b)->Ok_0;
        let os = side_schema(name, o)->Ok_0;
        let ts = side_schema(name, t)->Ok_0;
        if let Some(y) = bs {
            crate::merge_schema::law_schema_same(y, y);
        }
        let d = crate::merge_schema::schema_merge(bs, os, ts);
        assert(d is Clean);
        let ir = d->Clean_0;
        let columns = crate::constraints::names(ir.columns);
        crate::merge::law_unmoved_side_gives_way(
            projected(b, columns),
            projected(x, columns),
            ir.pk,
            columns,
        );
        let out = rows_of(ir, b, o, t);
        assert(out.conflicts.len() == 0);
        assert(next == with_merged_rows(acc, name, ir, out));
        let rows = projected(x, columns);
        if ir.pk.len() == 0 {
            assert(working_rows(out, ir.pk) =~= rows);
        }
        assert(next.work[name].rows == settled_rows(side[name], next.work[name]));
        assert(list.take(i + 1) =~= list.take(i).push(name));
        assert forall|u: Seq<char>| #[trigger] next.work.dom().contains(u) <==> list.take(
            i + 1,
        ).contains(u) by {
            if list.take(i).contains(u) {
                let k = choose|k: int| 0 <= k < i && list.take(i)[k] == u;
                assert(list.take(i + 1)[k] == u);
            }
            if u == name {
                assert(list.take(i + 1)[i] == u);
            }
        }
    }
}

proof fn lemma_settled_from(
    base: TablesModel,
    side: TablesModel,
    list: Seq<Seq<char>>,
    i: int,
    acc: MergedModel,
    ours_moved: bool,
)
    requires
        base.dom().subset_of(side.dom()),
        0 <= i <= list.len(),
        forall|k: int| 0 <= k < list.len() ==> side.dom().contains(#[trigger] list[k]),
        settled(side, list, i, acc),
    ensures
        ({
            let r = if ours_moved {
                merge_from(base, side, base, list, i, acc)
            } else {
                merge_from(base, base, side, list, i, acc)
            };
            r matches Ok(m) ==> settled(side, list, list.len() as int, m)
        }),
    decreases list.len() - i,
{
    if i < list.len() {
        lemma_settled_step(base, side, list, i, acc, ours_moved);
        let b = table_in(base, list[i]);
        let x = table_in(side, list[i]);
        let r = if ours_moved {
            merge_table(acc, list[i], b, x, b)
        } else {
            merge_table(acc, list[i], b, b, x)
        };
        if let Ok(next) = r {
            lemma_settled_from(base, side, list, i + 1, next, ours_moved);
        }
    }
}

/// A side that did not move gives way to one that kept every table: the merge
/// has no conflicts, and each table has the rows of the side that moved; with a
/// primary key one for each key, in the order of the keys.
pub proof fn law_unmoved_tables_give_way(base: TablesModel, side: TablesModel, m: MergedModel)
    requires
        base.dom().finite(),
        side.dom().finite(),
        base.dom().subset_of(side.dom()),
        merge_tables(base, base, side) == Ok::<MergedModel, Fault>(m) || merge_tables(
            base,
            side,
            base,
        ) == Ok::<MergedModel, Fault>(m),
    ensures
        m.conflicts.len() == 0,
        m.work.dom() == side.dom(),
        forall|t: Seq<char>| #[trigger]
            side.dom().contains(t) ==> m.work[t].rows == settled_rows(side[t], m.work[t]),
{
    let all = base.dom().union(base.dom()).union(side.dom());
    assert(all =~= side.dom());
    assert(base.dom().union(side.dom()).union(base.dom()) =~= side.dom());
    let list = crate::names::ordered(side.dom());
    crate::names::law_ordered(side.dom());
    assert forall|k: int| 0 <= k < list.len() implies side.dom().contains(#[trigger] list[k]) by {
        assert(list.to_set().contains(list[k]));
    }
    let none = MergedModel { work: Map::empty(), conflicts: seq![], stats: Map::empty() };
    lemma_settled_from(base, side, list, 0, none, true);
    lemma_settled_from(base, side, list, 0, none, false);
    assert(list.take(list.len() as int) =~= list);
    assert forall|t: Seq<char>| m.work.dom().contains(t) <==> side.dom().contains(t) by {
        assert(list.contains(t) <==> list.to_set().contains(t));
    }
    assert(m.work.dom() =~= side.dom());
}

// ---------------------------------------------------------------------------
// What a merge does row by row
// ---------------------------------------------------------------------------

proof fn lemma_by_key(rows: Seq<(RowModel, RowModel)>, key: RowModel)
    requires
        forall|i: int, j: int|
            0 <= i < j < rows.len() ==> (#[trigger] rows[i]).0 != (#[trigger] rows[j]).0,
    ensures
        by_key(rows).dom().finite(),
        by_key(rows).dom().contains(key) ==> rows.contains((key, by_key(rows)[key])),
        forall|r: RowModel| #[trigger]
            rows.contains((key, r)) ==> by_key(rows).dom().contains(key) && by_key(rows)[key] == r,
    decreases rows.len(),
{
    if rows.len() > 0 {
        let d = rows.drop_last();
        assert forall|i: int, j: int| 0 <= i < j < d.len() implies (#[trigger] d[i]).0 != (
        #[trigger] d[j]).0 by {
            assert(d[i] == rows[i] && d[j] == rows[j]);
        }
        lemma_by_key(d, key);
        assert(rows[rows.len() - 1] == rows.last());
        if by_key(d).dom().contains(key) {
            let k = choose|k: int| 0 <= k < d.len() && d[k] == (key, by_key(d)[key]);
            assert(rows[k] == d[k]);
        }
        assert forall|r: RowModel| #[trigger] rows.contains((key, r)) implies by_key(
            rows,
        ).dom().contains(key) && by_key(rows)[key] == r by {
            let k = choose|k: int| 0 <= k < rows.len() && rows[k] == (key, r);
            if k < d.len() {
                assert(d[k] == (key, r));
                assert(d.contains((key, r)));
                assert(rows[k].0 != rows[rows.len() - 1].0);
            }
        }
    }
}

/// What stands under a key once our rows of the conflicts are in place.
proof fn lemma_our_images(
    m: Map<RowModel, RowModel>,
    conflicts: Seq<(Seq<char>, crate::merge::ConflictModel)>,
    key: RowModel,
    c: crate::merge::ConflictModel,
)
    requires
        m.dom().finite(),
        forall|i: int|
            0 <= i < conflicts.len() && (#[trigger] conflicts[i]).1.pk == key ==> conflicts[i].1 == c,
    ensures
        our_images(m, conflicts).dom().finite(),
        ({
            let there = exists|i: int|
                0 <= i < conflicts.len() && (#[trigger] conflicts[i]).1.pk == key;
            crate::merge::lookup(our_images(m, conflicts), key) == (if there && c.ours is Some {
                c.ours
            } else {
                crate::merge::lookup(m, key)
            })
        }),
    decreases conflicts.len(),
{
    if conflicts.len() > 0 {
        let d = conflicts.drop_last();
        let x = conflicts.last().1;
        assert forall|i: int| 0 <= i < d.len() && (#[trigger] d[i]).1.pk == key implies d[i].1
            == c by {
            assert(d[i] == conflicts[i]);
        }
        lemma_our_images(m, d, key, c);
        if x.pk == key {
            assert(conflicts[conflicts.len() - 1].1.pk == key);
        } else if exists|i: int| 0 <= i < conflicts.len() && (#[trigger] conflicts[i]).1.pk == key {
            let i = choose|i: int|
                0 <= i < conflicts.len() && (#[trigger] conflicts[i]).1.pk == key;
            assert(d[i].1.pk == key);
        }
        if exists|i: int| 0 <= i < d.len() && (#[trigger] d[i]).1.pk == key {
            let i = choose|i: int| 0 <= i < d.len() && (#[trigger] d[i]).1.pk == key;
            assert(conflicts[i].1.pk == key);
        }
    }
}

/// The rows of a map whose rows stand under their own keys.
proof fn lemma_values_hold(
    m: Map<RowModel, RowModel>,
    pk: Seq<Seq<char>>,
    columns: Seq<Seq<char>>,
    key: RowModel,
)
    requires
        m.dom().finite(),
        forall|k: RowModel| #[trigger]
            m.dom().contains(k) ==> crate::merge::pk_cells(m[k], pk, columns) == k,
    ensures
        crate::merge::holds_under(
            values_in_order(m),
            pk,
            columns,
            key,
            crate::merge::lookup(m, key),
        ),
        crate::merge::distinct_keys(values_in_order(m), pk, columns),
{
    let keys = crate::merge::in_order(m.dom());
    let rows = values_in_order(m);
    crate::merge::lemma_in_order(m.dom());
    assert forall|i: int| 0 <= i < rows.len() implies crate::merge::pk_cells(
        #[trigger] rows[i],
        pk,
        columns,
    ) == keys[i] by {
        assert(keys.contains(keys[i]));
    }
    if m.dom().contains(key) {
        assert(keys.contains(key));
        let i = choose|i: int| 0 <= i < keys.len() && keys[i] == key;
        assert(rows[i] == m[key]);
    } else {
        assert forall|i: int| 0 <= i < rows.len() implies crate::merge::pk_cells(
            #[trigger] rows[i],
            pk,
            columns,
        ) != key by {
            assert(keys.contains(keys[i]));
        }
    }
}

/// The row that a merge leaves under a key: what the rule says, or our row where there is
/// a conflict.
pub open spec fn left_under(
    b: Option<RowModel>,
    o: Option<RowModel>,
    t: Option<RowModel>,
) -> Option<RowModel> {
    match crate::merge::row_rule(b, o, t) {
        Ok(r) => r,
        Err(_) => o,
    }
}

proof fn lemma_image_under(
    base: Seq<RowModel>,
    ours: Seq<RowModel>,
    theirs: Seq<RowModel>,
    pk: Seq<Seq<char>>,
    columns: Seq<Seq<char>>,
    key: RowModel,
    b: Option<RowModel>,
    o: Option<RowModel>,
    t: Option<RowModel>,
)
    requires
        pk.len() > 0,
        crate::merge::distinct_keys(base, pk, columns),
        crate::merge::distinct_keys(ours, pk, columns),
        crate::merge::distinct_keys(theirs, pk, columns),
        crate::merge::as_wide(base, columns),
        crate::merge::as_wide(ours, columns),
        crate::merge::as_wide(theirs, columns),
        crate::merge::holds_under(base, pk, columns, key, b),
        crate::merge::holds_under(ours, pk, columns, key, o),
        crate::merge::holds_under(theirs, pk, columns, key, t),
    ensures
        ({
            let m = crate::merge::row_merge(base, ours, theirs, pk, columns);
            let all = our_images(by_key(m.rows), m.conflicts);
            &&& all.dom().finite()
            &&& crate::merge::lookup(all, key) == left_under(b, o, t)
            &&& left_under(b, o, t) matches Some(r) ==> crate::merge::pk_cells(r, pk, columns)
                == key
        }),
{
    let m = crate::merge::row_merge(base, ours, theirs, pk, columns);
    let c = crate::merge::ConflictRow { pk: key, base: b, ours: o, theirs: t };
    crate::merge::lemma_row_merge_rule(base, ours, theirs, pk, columns, key, b, o, t);
    lemma_by_key(m.rows, key);
    lemma_our_images(by_key(m.rows), m.conflicts, key, c);
    if crate::merge::row_rule(b, o, t) is Err {
        let e = (Seq::<char>::empty(), c);
        assert(m.conflicts.contains(e));
        let i = choose|i: int| 0 <= i < m.conflicts.len() && m.conflicts[i] == e;
        assert(m.conflicts[i].1.pk == key);
    }
    if let Ok(Some(r)) = crate::merge::row_rule(b, o, t) {
        let i = choose|i: int| 0 <= i < m.rows.len() && m.rows[i] == (key, r);
        assert(crate::merge::pk_cells(m.rows[i].1, pk, columns) == m.rows[i].0);
    }
}

/// The working rows of a merged table go by the rule, key by key.
proof fn lemma_working_rows_rule(
    base: Seq<RowModel>,
    ours: Seq<RowModel>,
    theirs: Seq<RowModel>,
    pk: Seq<Seq<char>>,
    columns: Seq<Seq<char>>,
    key: RowModel,
    b: Option<RowModel>,
    o: Option<RowModel>,
    t: Option<RowModel>,
)
    requires
        pk.len() > 0,
        crate::merge::distinct_keys(base, pk, columns),
        crate::merge::distinct_keys(ours, pk, columns),
        crate::merge::distinct_keys(theirs, pk, columns),
        crate::merge::as_wide(base, columns),
        crate::merge::as_wide(ours, columns),
        crate::merge::as_wide(theirs, columns),
        crate::merge::holds_under(base, pk, columns, key, b),
        crate::merge::holds_under(ours, pk, columns, key, o),
        crate::merge::holds_under(theirs, pk, columns, key, t),
    ensures
        ({
            let m = crate::merge::row_merge(base, ours, theirs, pk, columns);
            let rows = working_rows(m, pk);
            &&& crate::merge::holds_under(rows, pk, columns, key, left_under(b, o, t))
            &&& crate::merge::distinct_keys(rows, pk, columns)
        }),
{
    let m = crate::merge::row_merge(base, ours, theirs, pk, columns);
    let all = our_images(by_key(m.rows), m.conflicts);
    lemma_image_under(base, ours, theirs, pk, columns, key, b, o, t);
    assert forall|k: RowModel| #[trigger] all.dom().contains(k) implies crate::merge::pk_cells(
        all[k],
        pk,
        columns,
    ) == k by {
        let kb = crate::merge::lemma_holds_something(base, pk, columns, k);
        let ko = crate::merge::lemma_holds_something(ours, pk, columns, k);
        let kt = crate::merge::lemma_holds_something(theirs, pk, columns, k);
        lemma_image_under(base, ours, theirs, pk, columns, k, kb, ko, kt);
    }
    lemma_values_hold(all, pk, columns, key);
}

/// A merged table is added to what is merged already, and nothing else changes.
proof fn lemma_merge_table_adds(
    acc: MergedModel,
    name: Seq<char>,
    b: Option<SnapModel>,
    o: Option<SnapModel>,
    t: Option<SnapModel>,
)
    ensures
        ({
            let none = MergedModel { work: Map::empty(), conflicts: seq![], stats: Map::empty() };
            match merge_table(none, name, b, o, t) {
                Err(e) => merge_table(acc, name, b, o, t) == Err::<MergedModel, Fault>(e),
                Ok(own) => {
                    &&& merge_table(acc, name, b, o, t) matches Ok(next)
                    &&& next.conflicts == acc.conflicts + own.conflicts
                    &&& next.work == acc.work.union_prefer_right(own.work)
                    &&& own.work.dom().subset_of(set![name])
                    &&& forall|i: int|
                        0 <= i < own.conflicts.len() ==> (#[trigger] own.conflicts[i]).table == name
                },
            }
        }),
{
    let none = MergedModel { work: Map::empty(), conflicts: seq![], stats: Map::empty() };
    if let Ok(own) = merge_table(none, name, b, o, t) {
        let next = merge_table(acc, name, b, o, t)->Ok_0;
        assert(next.conflicts =~= acc.conflicts + own.conflicts);
        assert(next.work =~= acc.work.union_prefer_right(own.work));
    }
}

/// What a merge of tables comes to for one of them.
proof fn lemma_merge_from_table(
    base: TablesModel,
    ours: TablesModel,
    theirs: TablesModel,
    list: Seq<Seq<char>>,
    i: int,
    acc: MergedModel,
    k: int,
    m: MergedModel,
)
    requires
        list.no_duplicates(),
        0 <= i <= list.len(),
        0 <= k < list.len(),
        merge_from(base, ours, theirs, list, i, acc) == Ok::<MergedModel, Fault>(m),
    ensures
        ({
            let name = list[k];
            let none = MergedModel { work: Map::empty(), conflicts: seq![], stats: Map::empty() };
            if i <= k {
                &&& merge_table(
                    none,
                    name,
                    table_in(base, name),
                    table_in(ours, name),
                    table_in(theirs, name),
                ) matches Ok(own)
                &&& crate::merge::lookup(m.work, name) == (if own.work.dom().contains(name) {
                    Some(own.work[name])
                } else {
                    crate::merge::lookup(acc.work, name)
                })
                &&& forall|e: EntryModel|
                    e.table == name ==> (#[trigger] m.conflicts.contains(e)
                        <==> acc.conflicts.contains(e) || own.conflicts.contains(e))
            } else {
                &&& crate::merge::lookup(m.work, name) == crate::merge::lookup(acc.work, name)
                &&& forall|e: EntryModel|
                    e.table == name ==> (#[trigger] m.conflicts.contains(e)
                        <==> acc.conflicts.contains(e))
            }
        }),
    decreases list.len() - i,
{
    if i < list.len() {
        let at = list[i];
        let name = list[k];
        let b = table_in(base, at);
        let o = table_in(ours, at);
        let t = table_in(theirs, at);
        let none = MergedModel { work: Map::empty(), conflicts: seq![], stats: Map::empty() };
        lemma_merge_table_adds(acc, at, b, o, t);
        let next = merge_table(acc, at, b, o, t)->Ok_0;
        let own = merge_table(none, at, b, o, t)->Ok_0;
        lemma_merge_from_table(base, ours, theirs, list, i + 1, next, k, m);
        assert forall|e: EntryModel| #[trigger] next.conflicts.contains(e)
            <==> acc.conflicts.contains(e) || own.conflicts.contains(e) by {
            if next.conflicts.contains(e) {
                let j = choose|j: int| 0 <= j < next.conflicts.len() && next.conflicts[j] == e;
                if j < acc.conflicts.len() {
                    assert(acc.conflicts[j] == e);
                } else {
                    assert(own.conflicts[j - acc.conflicts.len()] == e);
                }
            }
            if acc.conflicts.contains(e) {
                let j = choose|j: int| 0 <= j < acc.conflicts.len() && acc.conflicts[j] == e;
                assert(next.conflicts[j] == e);
            }
            if own.conflicts.contains(e) {
                let j = choose|j: int| 0 <= j < own.conflicts.len() && own.conflicts[j] == e;
                assert(next.conflicts[acc.conflicts.len() + j] == e);
            }
        }
        if i != k {
            assert(at != name);
            assert(!own.work.dom().contains(name));
            assert forall|e: EntryModel| e.table == name implies !#[trigger] own.conflicts.contains(
                e,
            ) by {
                if own.conflicts.contains(e) {
                    let j = choose|j: int| 0 <= j < own.conflicts.len() && own.conflicts[j] == e;
                    assert(own.conflicts[j].table == at);
                }
            }
        }
    }
}

/// What a merge of tables comes to for one of them, on its own.
pub proof fn lemma_merged_table(
    base: TablesModel,
    ours: TablesModel,
    theirs: TablesModel,
    m: MergedModel,
    name: Seq<char>,
) -> (own: MergedModel)
    requires
        base.dom().finite() && ours.dom().finite() && theirs.dom().finite(),
        merge_tables(base, ours, theirs) == Ok::<MergedModel, Fault>(m),
        base.dom().contains(name) || ours.dom().contains(name) || theirs.dom().contains(name),
    ensures
        merge_table(
            MergedModel { work: Map::empty(), conflicts: seq![], stats: Map::empty() },
            name,
            table_in(base, name),
            table_in(ours, name),
            table_in(theirs, name),
        ) == Ok::<MergedModel, Fault>(own),
        crate::merge::lookup(m.work, name) == crate::merge::lookup(own.work, name),
        forall|e: EntryModel|
            e.table == name ==> (#[trigger] m.conflicts.contains(e) <==> own.conflicts.contains(e)),
{
    let all = base.dom().union(ours.dom()).union(theirs.dom());
    let list = crate::names::ordered(all);
    let none = MergedModel { work: Map::empty(), conflicts: seq![], stats: Map::empty() };
    crate::names::law_ordered(all);
    assert forall|i: int, j: int|
        0 <= i < list.len() && 0 <= j < list.len() && i != j implies list[i] != list[j] by {
        crate::text::lemma_text_lt_total(list[i], list[j]);
        if i < j {
            assert(crate::text::text_lt(list[i], list[j]));
        } else {
            assert(crate::text::text_lt(list[j], list[i]));
        }
    }
    assert(list.to_set().contains(name));
    let k = choose|k: int| 0 <= k < list.len() && list[k] == name;
    lemma_merge_from_table(base, ours, theirs, list, 0, none, k, m);
    let own = merge_table(
        none,
        name,
        table_in(base, name),
        table_in(ours, name),
        table_in(theirs, name),
    )->Ok_0;
    assert forall|e: EntryModel| e.table == name implies (#[trigger] m.conflicts.contains(e)
        <==> own.conflicts.contains(e)) by {
        assert(!none.conflicts.contains(e));
    }
    own
}

/// A projection takes each cell from the column of its name; a column that the row does
/// not have is null.
pub proof fn law_projection_goes_by_names(
    row: RowModel,
    from: Seq<Seq<char>>,
    to: Seq<Seq<char>>,
    j: int,
)
    requires
        row.len() == from.len(),
        from.no_duplicates(),
        0 <= j < to.len(),
    ensures
        project_row(row, from, to).len() == to.len(),
        forall|i: int|
            0 <= i < from.len() && #[trigger] from[i] == to[j] ==> project_row(row, from, to)[j]
                == row[i],
        !from.contains(to[j]) ==> project_row(row, from, to)[j] == CellModel::Null,
{
    crate::merge::lemma_name_from(from, to[j], 0);
}

/// Has each row of a side, laid out by these columns, a cell in each of them and a key of
/// its own?
pub open spec fn keyed_side(
    snap: Option<SnapModel>,
    pk: Seq<Seq<char>>,
    columns: Seq<Seq<char>>,
) -> bool {
    crate::merge::distinct_keys(projected(snap, columns), pk, columns) && crate::merge::as_wide(
        projected(snap, columns),
        columns,
    )
}

/// Is this what a table holds under a key?
pub open spec fn held_in(snap: SnapModel, key: RowModel, row: Option<RowModel>) -> bool {
    crate::merge::holds_under(snap.rows, snap.pk, snap.columns, key, row)
}

/// The schemas of a table merged, and its rows were merged by the outcome.
pub proof fn lemma_merged_rows(
    base: TablesModel,
    ours: TablesModel,
    theirs: TablesModel,
    m: MergedModel,
    name: Seq<char>,
) -> (ir: SchemaModel)
    requires
        base.dom().finite() && ours.dom().finite() && theirs.dom().finite(),
        merge_tables(base, ours, theirs) == Ok::<MergedModel, Fault>(m),
        ours.dom().contains(name) || theirs.dom().contains(name),
        schemas_agree(m.conflicts, name),
    ensures
        m.work.dom().contains(name),
        ({
            let b = table_in(base, name);
            let o = table_in(ours, name);
            let t = table_in(theirs, name);
            let out = rows_of(ir, b, o, t);
            let f = |c: (Seq<char>, crate::merge::ConflictModel)| row_entry(name, c.1);
            &&& o is Some || t is Some
            &&& side_schema(name, b) is Ok && side_schema(name, o) is Ok && side_schema(name, t) is Ok
            &&& crate::merge_schema::schema_merge(
                side_schema(name, b)->Ok_0,
                side_schema(name, o)->Ok_0,
                side_schema(name, t)->Ok_0,
            ) == SchemaDecision::<SchemaModel, Seq<char>>::Clean(ir)
            &&& m.work[name] == (SnapModel {
                columns: crate::constraints::names(ir.columns),
                pk: ir.pk,
                rows: working_rows(out, ir.pk),
                schema_sql: merged_statement(ir),
            })
            &&& forall|e: EntryModel|
                e.table == name ==> (#[trigger] m.conflicts.contains(e)
                    <==> out.conflicts.map_values(f).contains(e))
        }),
{
    let b = table_in(base, name);
    let o = table_in(ours, name);
    let t = table_in(theirs, name);
    let own = lemma_merged_table(base, ours, theirs, m, name);
    let bs = side_schema(name, b)->Ok_0;
    let os = side_schema(name, o)->Ok_0;
    let ts = side_schema(name, t)->Ok_0;
    let d = crate::merge_schema::schema_merge(bs, os, ts);
    if let SchemaDecision::Conflict(detail) = d {
        let e = schema_entry(name, detail, o, t);
        assert(own.conflicts =~= seq![e]);
        assert(own.conflicts[0] == e);
        assert(own.conflicts.contains(e));
        assert(m.conflicts.contains(e));
        let i = choose|i: int| 0 <= i < m.conflicts.len() && m.conflicts[i] == e;
        assert(m.conflicts[i].kind is Rows);
    }
    let ir = d->Clean_0;
    let out = rows_of(ir, b, o, t);
    let f = |c: (Seq<char>, crate::merge::ConflictModel)| row_entry(name, c.1);
    assert(own.conflicts =~= out.conflicts.map_values(f));
    assert(own.work[name] == m.work[name]);
    ir
}

/// Are these the rows that three sides of a table have under a key, laid out by the
/// columns of the merged table?
pub open spec fn are_sides(
    now: SnapModel,
    base: Option<SnapModel>,
    ours: Option<SnapModel>,
    theirs: Option<SnapModel>,
    key: RowModel,
    b: Option<RowModel>,
    o: Option<RowModel>,
    t: Option<RowModel>,
) -> bool {
    &&& now.pk.len() > 0
    &&& keyed_side(base, now.pk, now.columns)
    &&& keyed_side(ours, now.pk, now.columns)
    &&& keyed_side(theirs, now.pk, now.columns)
    &&& crate::merge::holds_under(projected(base, now.columns), now.pk, now.columns, key, b)
    &&& crate::merge::holds_under(projected(ours, now.columns), now.pk, now.columns, key, o)
    &&& crate::merge::holds_under(projected(theirs, now.columns), now.pk, now.columns, key, t)
}

/// Was the row of a key merged? Where one side left it as it was, the other side's row is
/// there, or is gone where that side removed it; a row that both sides have alike stays.
/// Where both changed it and no cell in two ways, the row has the changes of both. Anything
/// else is a conflict of the key, with the three rows, and our row stays in place; there is
/// no conflict of the key but for that.
pub open spec fn is_merged_row(
    now: SnapModel,
    conflicts: Seq<EntryModel>,
    name: Seq<char>,
    key: RowModel,
    b: Option<RowModel>,
    o: Option<RowModel>,
    t: Option<RowModel>,
) -> bool {
    let together = forall|i: int|
        0 <= i < now.columns.len() ==> #[trigger] o->0[i] == b->0[i] || t->0[i] == b->0[i]
            || o->0[i] == t->0[i];
    let clash = b != o && b != t && o != t && !(b is Some && o is Some && t is Some && together);
    &&& crate::merge::distinct_keys(now.rows, now.pk, now.columns)
    &&& b == t ==> held_in(now, key, o)
    &&& b == o ==> held_in(now, key, t)
    &&& o == t ==> held_in(now, key, o)
    &&& b != o && b != t && o != t && !clash ==> exists|r: RowModel|
        {
            &&& #[trigger] held_in(now, key, Some(r))
            &&& r.len() == now.columns.len()
            &&& forall|i: int|
                0 <= i < r.len() ==> #[trigger] r[i] == (if o->0[i] == b->0[i] {
                    t->0[i]
                } else {
                    o->0[i]
                })
        }
    &&& clash ==> held_in(now, key, o)
    &&& clash <==> conflicts.contains(
        EntryModel {
            table: name,
            pk: key,
            base: b,
            ours: o,
            theirs: t,
            kind: ConflictKind::Rows,
            ours_schema: None,
            theirs_schema: None,
        },
    )
    &&& !clash ==> forall|i: int|
        0 <= i < conflicts.len() && (#[trigger] conflicts[i]).table == name ==> conflicts[i].pk
            != key
}

/// Do the schemas of a table not conflict?
pub open spec fn schemas_agree(conflicts: Seq<EntryModel>, name: Seq<char>) -> bool {
    forall|i: int|
        0 <= i < conflicts.len() && (#[trigger] conflicts[i]).table == name ==> conflicts[i].kind
            is Rows
}

/// A merge of a table with a primary key, whose schemas do not conflict, goes row by row.
pub proof fn law_merge_goes_row_by_row(
    base: TablesModel,
    ours: TablesModel,
    theirs: TablesModel,
    m: MergedModel,
    name: Seq<char>,
    key: RowModel,
    b: Option<RowModel>,
    o: Option<RowModel>,
    t: Option<RowModel>,
)
    requires
        base.dom().finite() && ours.dom().finite() && theirs.dom().finite(),
        merge_tables(base, ours, theirs) == Ok::<MergedModel, Fault>(m),
        ours.dom().contains(name) || theirs.dom().contains(name),
        schemas_agree(m.conflicts, name),
        are_sides(
            m.work[name],
            table_in(base, name),
            table_in(ours, name),
            table_in(theirs, name),
            key,
            b,
            o,
            t,
        ),
    ensures
        m.work.dom().contains(name),
        is_merged_row(m.work[name], m.conflicts, name, key, b, o, t),
{
    let now = m.work[name];
    let ir = lemma_merged_rows(base, ours, theirs, m, name);
    let columns = now.columns;
    let pb = projected(table_in(base, name), columns);
    let po = projected(table_in(ours, name), columns);
    let pt = projected(table_in(theirs, name), columns);
    let out = crate::merge::row_merge(pb, po, pt, now.pk, columns);
    lemma_working_rows_rule(pb, po, pt, now.pk, columns, key, b, o, t);
    crate::merge::lemma_row_merge_rule(pb, po, pt, now.pk, columns, key, b, o, t);
    if let Some(x) = b {
        let i = choose|i: int| 0 <= i < pb.len() && pb[i] == x;
        assert(pb[i].len() == columns.len());
    }
    let rule = crate::merge::row_rule(b, o, t);
    let together = forall|i: int|
        0 <= i < columns.len() ==> #[trigger] o->0[i] == b->0[i] || t->0[i] == b->0[i] || o->0[i]
            == t->0[i];
    if b is Some && o is Some && t is Some {
        assert(together == crate::merge::cells_go_together(b->0, o->0, t->0));
        if together {
            let r = crate::merge::with_both_changes(b->0, o->0, t->0);
            if b != o && b != t && o != t {
                assert(held_in(now, key, Some(r)));
            }
        }
    }
    let f = |c: (Seq<char>, crate::merge::ConflictModel)| row_entry(name, c.1);
    let c = crate::merge::ConflictRow { pk: key, base: b, ours: o, theirs: t };
    let e = row_entry(name, c);
    let entries = out.conflicts.map_values(f);
    if rule is Err {
        let i = choose|i: int|
            0 <= i < out.conflicts.len() && out.conflicts[i] == (Seq::<char>::empty(), c);
        assert(entries[i] == e);
        assert(entries.contains(e));
    } else {
        assert forall|i: int|
            0 <= i < m.conflicts.len() && (#[trigger] m.conflicts[i]).table
                == name implies m.conflicts[i].pk != key by {
            assert(m.conflicts.contains(m.conflicts[i]));
            assert(entries.contains(m.conflicts[i]));
            let j = choose|j: int| 0 <= j < entries.len() && entries[j] == m.conflicts[i];
            assert(entries[j] == f(out.conflicts[j]));
            assert(out.conflicts[j].1.pk != key);
        }
        if m.conflicts.contains(e) {
            let i = choose|i: int| 0 <= i < m.conflicts.len() && m.conflicts[i] == e;
            assert(m.conflicts[i].pk != key);
        }
    }
}

/// Our copies among conflicts of single rows.
proof fn lemma_our_rows_count(
    base: Seq<RowModel>,
    ours: Seq<RowModel>,
    theirs: Seq<RowModel>,
    list: Seq<RowModel>,
    row: RowModel,
)
    ensures
        our_rows(
            list.map_values(
                |r: RowModel| crate::merge::lonely_conflict(base, ours, theirs, r),
            ),
        ).to_multiset().count(row) == (if ours.to_multiset().count(row)
            > theirs.to_multiset().count(row) {
            list.to_multiset().count(row)
        } else {
            0
        }),
    decreases list.len(),
{
    broadcast use vstd::seq_lib::group_to_multiset_ensures;
    broadcast use vstd::multiset::group_multiset_axioms;

    let f = |r: RowModel| crate::merge::lonely_conflict(base, ours, theirs, r);
    if list.len() > 0 {
        let d = list.drop_last();
        lemma_our_rows_count(base, ours, theirs, d, row);
        assert(list.map_values(f).drop_last() =~= d.map_values(f));
        assert(list =~= d.push(list.last()));
    } else {
        assert(list =~= seq![]);
        assert(our_rows(list.map_values(f)) =~= seq![]);
    }
}

/// Were the rows of a table without a primary key merged? It goes by how often each row
/// stands in it: where one side left the rows as they were, the other side's rows are
/// there; rows that both sides have alike stay. Anything else is a conflict, and our rows
/// stay in place.
pub open spec fn are_merged_rows(
    now: SnapModel,
    conflicts: Seq<EntryModel>,
    name: Seq<char>,
    base: Option<SnapModel>,
    ours: Option<SnapModel>,
    theirs: Option<SnapModel>,
) -> bool {
    let b = projected(base, now.columns).to_multiset();
    let o = projected(ours, now.columns).to_multiset();
    let t = projected(theirs, now.columns).to_multiset();
    let clash = b != o && b != t && o != t;
    &&& b == t ==> now.rows.to_multiset() == o
    &&& b == o ==> now.rows.to_multiset() == t
    &&& o == t ==> now.rows.to_multiset() == o
    &&& clash ==> now.rows.to_multiset() == o
    &&& clash <==> exists|i: int| 0 <= i < conflicts.len() && (#[trigger] conflicts[i]).table == name
}

/// A merge of a table without a primary key, whose schemas do not conflict, takes the
/// rows of the side that moved.
pub proof fn law_merge_without_a_key_takes_the_moved_side(
    base: TablesModel,
    ours: TablesModel,
    theirs: TablesModel,
    m: MergedModel,
    name: Seq<char>,
)
    requires
        base.dom().finite() && ours.dom().finite() && theirs.dom().finite(),
        merge_tables(base, ours, theirs) == Ok::<MergedModel, Fault>(m),
        ours.dom().contains(name) || theirs.dom().contains(name),
        schemas_agree(m.conflicts, name),
        m.work[name].pk.len() == 0,
    ensures
        m.work.dom().contains(name),
        are_merged_rows(
            m.work[name],
            m.conflicts,
            name,
            table_in(base, name),
            table_in(ours, name),
            table_in(theirs, name),
        ),
{
    broadcast use vstd::seq_lib::group_to_multiset_ensures;
    broadcast use vstd::multiset::group_multiset_axioms;

    let now = m.work[name];
    let ir = lemma_merged_rows(base, ours, theirs, m, name);
    let columns = now.columns;
    let pb = projected(table_in(base, name), columns);
    let po = projected(table_in(ours, name), columns);
    let pt = projected(table_in(theirs, name), columns);
    let b = pb.to_multiset();
    let o = po.to_multiset();
    let t = pt.to_multiset();
    let out = crate::merge::row_merge(pb, po, pt, ir.pk, columns);
    let one = |r: (RowModel, RowModel)| r.1;
    let f = |c: (Seq<char>, crate::merge::ConflictModel)| row_entry(name, c.1);
    let entries = out.conflicts.map_values(f);
    assert(now.rows == out.rows.map_values(one) + our_rows(out.conflicts));
    assert(crate::merge::whole(po).map_values(one) =~= po);
    assert(crate::merge::whole(pt).map_values(one) =~= pt);
    let clash = b != o && b != t && o != t;
    if clash {
        crate::merge::law_divergence_is_a_conflict(pb, po, pt, columns, seq![]);
        assert(ir.pk =~= seq![]);
        let list = crate::merge::sorted(crate::merge::unshared(po, pt));
        let kept = crate::merge::sorted(crate::merge::shared(po, pt));
        assert(out.rows == crate::merge::whole(kept));
        assert(crate::merge::whole(kept).map_values(one) =~= kept);
        assert forall|row: RowModel| now.rows.to_multiset().count(row) == o.count(row) by {
            lemma_our_rows_count(pb, po, pt, list, row);
            crate::merge::lemma_shared_counts(po, pt, row);
            vstd::seq_lib::lemma_multiset_commutative(kept, our_rows(out.conflicts));
        }
        assert(now.rows.to_multiset() =~= o);
        assert(entries[0].table == name);
        assert(entries.contains(entries[0]));
        assert(m.conflicts.contains(entries[0]));
        let i = choose|i: int| 0 <= i < m.conflicts.len() && m.conflicts[i] == entries[0];
        assert(m.conflicts[i].table == name);
    } else {
        assert(out.conflicts.len() == 0);
        assert(our_rows(out.conflicts) =~= seq![]);
        assert(now.rows =~= out.rows.map_values(one));
        if exists|i: int| 0 <= i < m.conflicts.len() && (#[trigger] m.conflicts[i]).table == name {
            let i = choose|i: int|
                0 <= i < m.conflicts.len() && (#[trigger] m.conflicts[i]).table == name;
            assert(m.conflicts.contains(m.conflicts[i]));
            assert(entries.contains(m.conflicts[i]));
        }
    }
}

proof fn lemma_merge_from_finite(
    base: TablesModel,
    ours: TablesModel,
    theirs: TablesModel,
    list: Seq<Seq<char>>,
    i: int,
    acc: MergedModel,
)
    requires
        acc.work.dom().finite(),
    ensures
        merge_from(base, ours, theirs, list, i, acc) matches Ok(m) ==> m.work.dom().finite(),
    decreases list.len() - i,
{
    if i < list.len() {
        if let Ok(next) = merge_table(
            acc,
            list[i],
            table_in(base, list[i]),
            table_in(ours, list[i]),
            table_in(theirs, list[i]),
        ) {
            lemma_merge_from_finite(base, ours, theirs, list, i + 1, next);
        }
    }
}

/// A merge of tables gives finitely many.
pub proof fn lemma_merged_finite(base: TablesModel, ours: TablesModel, theirs: TablesModel)
    ensures
        merge_tables(base, ours, theirs) matches Ok(m) ==> m.work.dom().finite(),
{
    lemma_merge_from_finite(
        base,
        ours,
        theirs,
        crate::names::ordered(base.dom().union(ours.dom()).union(theirs.dom())),
        0,
        MergedModel { work: Map::empty(), conflicts: seq![], stats: Map::empty() },
    );
}

/// A merge without conflicts has each table that one of the sides has.
pub proof fn lemma_merged_has(
    base: TablesModel,
    ours: TablesModel,
    theirs: TablesModel,
    m: MergedModel,
    name: Seq<char>,
)
    requires
        base.dom().finite() && ours.dom().finite() && theirs.dom().finite(),
        merge_tables(base, ours, theirs) == Ok::<MergedModel, Fault>(m),
        ours.dom().contains(name) || theirs.dom().contains(name),
        schemas_agree(m.conflicts, name),
    ensures
        m.work.dom().contains(name),
{
    let _ = lemma_merged_rows(base, ours, theirs, m, name);
}

/// Merging one table counts what came of it: its merged rows and its conflicts, or one
/// conflict of schemas; every other table stays as it was merged before.
pub proof fn law_merge_counts_each_table(
    acc: MergedModel,
    name: Seq<char>,
    b: Option<SnapModel>,
    o: Option<SnapModel>,
    t: Option<SnapModel>,
    next: MergedModel,
    other: Seq<char>,
)
    requires
        merge_table(acc, name, b, o, t) == Ok::<MergedModel, Fault>(next),
        o is Some || t is Some,
        other != name,
    ensures
        next.stats.dom().contains(name),
        ({
            let n = next.stats[name];
            let more = next.conflicts.len() - acc.conflicts.len();
            if n.schema_conflict {
                &&& more == 1
                &&& next.conflicts.last().kind is Schema && next.conflicts.last().table == name
                &&& next.conflicts.last().ours_schema == o
                &&& next.conflicts.last().theirs_schema == t
                &&& n.rows_merged == 0 && n.rows_conflicted == 0
            } else {
                &&& next.work.dom().contains(name)
                &&& n.rows_merged == next.work[name].rows.len() as i64
                &&& n.rows_conflicted == more as i64
                &&& forall|i: int|
                    acc.conflicts.len() <= i < next.conflicts.len() ==> (
                    #[trigger] next.conflicts[i]).table == name && next.conflicts[i].kind is Rows
            }
        }),
        crate::merge::lookup(next.work, other) == crate::merge::lookup(acc.work, other),
        crate::merge::lookup(next.stats, other) == crate::merge::lookup(acc.stats, other),
        next.conflicts.len() >= acc.conflicts.len(),
        next.conflicts.take(acc.conflicts.len() as int) == acc.conflicts,
{
    assert(next.conflicts.take(acc.conflicts.len() as int) =~= acc.conflicts);
}

} // verus!
