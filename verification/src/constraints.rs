//! Constraint detectors over a merged working set, run before a commit.
//!
//! Each detector maps a broken rule to a lowercase violation type: `foreign
//! key`, `unique`, `check`, `not null` or `strict`.

use vstd::prelude::*;

pub use crate::checks::eval_check;
use crate::merge::{extract_pk, find_column};
use crate::merge_schema::{ColIR, ColModel, SchemaIR, SchemaModel};
use crate::sql::{
    next_is, read_group, read_paren_list, token_is, tokenize, unquote_ident, word_is,
};
use crate::text::{cat2, cat3, eq_ignore_case, join, str_eq, upper, words_of, Dup, Same};
use crate::values::{CellModel, RowModel, VcRow, VcValue};

verus! {

broadcast use crate::text::lemma_bytes_deep_view;

/// One table of a merged working set.
#[derive(Debug, Clone, PartialEq, Eq)]
pub struct MergedTable {
    pub name: String,
    pub schema: SchemaIR,
    pub rows: Vec<VcRow>,
}

/// A merged working set.
#[derive(Debug, Clone, PartialEq, Eq)]
pub struct MergedWork {
    pub tables: Vec<MergedTable>,
}

impl Default for MergedWork {
    fn default() -> (r: Self)
        ensures
            r.tables@.len() == 0,
    {
        MergedWork { tables: Vec::new() }
    }
}

/// What a table of a merged working set stands for.
pub struct TableModel {
    pub name: Seq<char>,
    pub schema: SchemaModel,
    pub rows: Seq<RowModel>,
}

impl DeepView for MergedTable {
    type V = TableModel;

    open spec fn deep_view(&self) -> TableModel {
        TableModel {
            name: self.name@,
            schema: self.schema.deep_view(),
            rows: self.rows.deep_view(),
        }
    }
}

impl DeepView for MergedWork {
    type V = Seq<TableModel>;

    open spec fn deep_view(&self) -> Seq<TableModel> {
        self.tables.deep_view()
    }
}

/// The kind of a broken constraint.
#[derive(Debug, Clone, Copy, PartialEq, Eq, Structural)]
pub enum ViolationKind {
    ForeignKey,
    Unique,
    Check,
    NotNull,
    Strict,
}

/// The lowercase name of a kind.
pub open spec fn kind_text(k: ViolationKind) -> Seq<char> {
    match k {
        ViolationKind::ForeignKey => "foreign key"@,
        ViolationKind::Unique => "unique"@,
        ViolationKind::Check => "check"@,
        ViolationKind::NotNull => "not null"@,
        ViolationKind::Strict => "strict"@,
    }
}

impl ViolationKind {
    /// The lowercase name of the kind.
    pub fn to_string(&self) -> (r: String)
        ensures
            r@ == kind_text(*self),
    {
        match self {
            ViolationKind::ForeignKey => "foreign key".to_owned(),
            ViolationKind::Unique => "unique".to_owned(),
            ViolationKind::Check => "check".to_owned(),
            ViolationKind::NotNull => "not null".to_owned(),
            ViolationKind::Strict => "strict".to_owned(),
        }
    }
}

/// One broken constraint.
#[derive(Debug, Clone, PartialEq, Eq)]
pub struct Violation {
    pub table: String,
    pub kind: ViolationKind,
    pub row_pk: Vec<VcValue>,
    pub detail: String,
}

/// What a violation stands for.
pub struct ViolationModel {
    pub table: Seq<char>,
    pub kind: ViolationKind,
    pub row_pk: RowModel,
    pub detail: Seq<char>,
}

impl DeepView for Violation {
    type V = ViolationModel;

    open spec fn deep_view(&self) -> ViolationModel {
        ViolationModel {
            table: self.table@,
            kind: self.kind,
            row_pk: self.row_pk.deep_view(),
            detail: self.detail@,
        }
    }
}

impl Dup for Violation {
    fn dup(&self) -> (r: Self) {
        Violation {
            table: self.table.clone(),
            kind: self.kind,
            row_pk: self.row_pk.dup(),
            detail: self.detail.clone(),
        }
    }
}

// ---------------------------------------------------------------------------
// What every detector says
// ---------------------------------------------------------------------------

/// What `f` gives for 0, 1 and so on up to `n`, one behind the other.
pub open spec fn gather<A>(n: int, f: spec_fn(int) -> Seq<A>) -> Seq<A>
    decreases n,
{
    if n <= 0 {
        seq![]
    } else {
        gather(n - 1, f) + f(n - 1)
    }
}

/// One item, or none.
pub open spec fn flag<A>(on: bool, x: A) -> Seq<A> {
    if on {
        seq![x]
    } else {
        seq![]
    }
}

/// The names of columns.
pub open spec fn names(columns: Seq<ColModel>) -> Seq<Seq<char>> {
    columns.map_values(|c: ColModel| c.name)
}

/// The names of columns.
pub fn column_names(columns: &Vec<ColIR>) -> (r: Vec<String>)
    ensures
        r.deep_view() == names(columns.deep_view()),
{
    let mut out: Vec<String> = Vec::new();
    let mut i: usize = 0;
    while i < columns.len()
        invariant
            i <= columns@.len(),
            out@.len() == i,
            forall|j: int| 0 <= j < i ==> (#[trigger] out@[j])@ == columns@[j].name@,
        decreases columns.len() - i,
    {
        out.push(columns[i].name.clone());
        i = i + 1;
    }
    assert(out.deep_view() =~= names(columns.deep_view()));
    out
}

/// A violation of row `j` of a table.
pub open spec fn row_violation(
    t: TableModel,
    kind: ViolationKind,
    j: int,
    detail: Seq<char>,
) -> ViolationModel {
    ViolationModel {
        table: t.name,
        kind,
        row_pk: crate::merge::pk_cells(t.rows[j], t.schema.pk, names(t.schema.columns)),
        detail,
    }
}

fn report(
    out: &mut Vec<Violation>,
    table: &MergedTable,
    cols: &Vec<String>,
    kind: ViolationKind,
    j: usize,
    detail: String,
)
    requires
        j < table.rows@.len(),
        cols.deep_view() == names(table.deep_view().schema.columns),
    ensures
        final(out).deep_view() == old(out).deep_view().push(
            row_violation(table.deep_view(), kind, j as int, detail@),
        ),
{
    let ghost before = out.deep_view();
    assert(table.deep_view().rows[j as int] == table.rows@[j as int].deep_view());
    let v = Violation {
        table: table.name.clone(),
        kind,
        row_pk: extract_pk(&table.rows[j], &table.schema.pk, cols),
        detail,
    };
    let ghost x = v.deep_view();
    out.push(v);
    assert(out.deep_view() =~= before.push(x));
}

/// Going one further gathers one more.
proof fn lemma_gather<A>(start: Seq<A>, n: int, f: spec_fn(int) -> Seq<A>)
    requires
        n >= 0,
    ensures
        start + gather(n + 1, f) == (start + gather(n, f)) + f(n),
{
    assert(start + gather(n + 1, f) =~= (start + gather(n, f)) + f(n));
}

// ---------------------------------------------------------------------------
// Not null
// ---------------------------------------------------------------------------

/// The null cells of a column that must have none.
pub open spec fn null_row(t: TableModel, c: int) -> spec_fn(int) -> Seq<ViolationModel> {
    |j: int|
        flag(
            crate::merge::cell_at(t.rows[j], c) == Some(CellModel::Null),
            row_violation(
                t,
                ViolationKind::NotNull,
                j,
                "NULL in NOT NULL column "@ + t.schema.columns[c].name,
            ),
        )
}

/// The violations of one column.
pub open spec fn null_column(t: TableModel) -> spec_fn(int) -> Seq<ViolationModel> {
    |c: int|
        if t.schema.columns[c].notnull {
            gather(t.rows.len() as int, null_row(t, c))
        } else {
            seq![]
        }
}

/// The `not null` violations of a table.
pub open spec fn null_violations(t: TableModel) -> Seq<ViolationModel> {
    gather(t.schema.columns.len() as int, null_column(t))
}

fn is_null_at(row: &VcRow, i: usize) -> (r: bool)
    ensures
        r == (crate::merge::cell_at(row.deep_view(), i as int) == Some(CellModel::Null)),
{
    if i < row.values.len() {
        assert(row.deep_view()[i as int] == row.values@[i as int].deep_view());
        matches!(row.values[i], VcValue::Null)
    } else {
        false
    }
}

fn check_not_null(out: &mut Vec<Violation>, table: &MergedTable, cols: &Vec<String>)
    requires
        cols.deep_view() == names(table.deep_view().schema.columns),
    ensures
        final(out).deep_view() == old(out).deep_view() + null_violations(table.deep_view()),
{
    let ghost t = table.deep_view();
    let ghost start = out.deep_view();
    let mut c: usize = 0;
    assert(start + gather(0, null_column(t)) =~= start);
    while c < table.schema.columns.len()
        invariant
            c <= table.schema.columns@.len(),
            t == table.deep_view(),
            cols.deep_view() == names(t.schema.columns),
            out.deep_view() == start + gather(c as int, null_column(t)),
        decreases table.schema.columns.len() - c,
    {
        let ghost here = out.deep_view();
        let col = &table.schema.columns[c];
        assert(t.schema.columns[c as int] == col.deep_view());
        if col.notnull {
            let ghost f = null_row(t, c as int);
            let mut j: usize = 0;
            assert(here + gather(0, f) =~= here);
            while j < table.rows.len()
                invariant
                    j <= table.rows@.len(),
                    t == table.deep_view(),
                    c < t.schema.columns.len(),
                    t.schema.columns[c as int] == col.deep_view(),
                    cols.deep_view() == names(t.schema.columns),
                    f == null_row(t, c as int),
                    out.deep_view() == here + gather(j as int, f),
                decreases table.rows.len() - j,
            {
                let ghost before = out.deep_view();
                assert(t.rows[j as int] == table.rows@[j as int].deep_view());
                if is_null_at(&table.rows[j], c) {
                    let detail = cat2("NULL in NOT NULL column ", col.name.as_str());
                    report(out, table, cols, ViolationKind::NotNull, j, detail);
                }
                proof {
                    lemma_gather(here, j as int, f);
                    assert(out.deep_view() =~= before + f(j as int));
                }
                j = j + 1;
            }
        } else {
            assert(here + seq![] =~= here);
        }
        proof {
            lemma_gather(start, c as int, null_column(t));
            assert(out.deep_view() =~= here + null_column(t)(c as int));
        }
        c = c + 1;
    }
}

// ---------------------------------------------------------------------------
// Strict types
// ---------------------------------------------------------------------------

/// The type that a strict column holds.
#[derive(Debug, Clone, Copy, PartialEq, Eq, Structural)]
pub enum StrictType {
    Any,
    Integer,
    Real,
    Text,
    Blob,
}

/// The type that a declaration's first word names.
pub open spec fn type_of(decl: Seq<char>) -> StrictType {
    let w = crate::text::split_words(decl);
    let ty = crate::text::uppercase(
        if w.len() > 0 {
            w[0]
        } else {
            seq![]
        },
    );
    if ty == "INT"@ || ty == "INTEGER"@ || ty == "BIGINT"@ || ty == "SMALLINT"@ || ty == "TINYINT"@
        || ty == "MEDIUMINT"@ || ty == "INT2"@ || ty == "INT8"@ {
        StrictType::Integer
    } else if ty == "REAL"@ || ty == "FLOAT"@ || ty == "DOUBLE"@ {
        StrictType::Real
    } else if ty == "TEXT"@ || ty == "VARCHAR"@ || ty == "CHAR"@ || ty == "CLOB"@ {
        StrictType::Text
    } else if ty == "BLOB"@ {
        StrictType::Blob
    } else {
        StrictType::Any
    }
}

/// The name of a type.
pub open spec fn type_text(ty: StrictType) -> Seq<char> {
    match ty {
        StrictType::Integer => "INTEGER"@,
        StrictType::Real => "REAL"@,
        StrictType::Text => "TEXT"@,
        StrictType::Blob => "BLOB"@,
        StrictType::Any => "ANY"@,
    }
}

/// The type of a cell; any type holds null.
pub open spec fn cell_type(v: CellModel) -> StrictType {
    match v {
        VcValue::Null => StrictType::Any,
        VcValue::Integer(_) => StrictType::Integer,
        VcValue::Real(_) => StrictType::Real,
        VcValue::Text(_) => StrictType::Text,
        VcValue::Blob(_) => StrictType::Blob,
    }
}

/// Does a cell belong in a column of this type?
pub open spec fn fits_type(ty: StrictType, v: CellModel) -> bool {
    ty == StrictType::Any || v is Null || cell_type(v) == ty
}

/// A cell of the wrong type.
pub open spec fn strict_row(t: TableModel, c: int) -> spec_fn(int) -> Seq<ViolationModel> {
    |j: int|
        match crate::merge::cell_at(t.rows[j], c) {
            None => seq![],
            Some(v) => flag(
                !fits_type(type_of(t.schema.columns[c].decl), v),
                row_violation(
                    t,
                    ViolationKind::Strict,
                    j,
                    "type mismatch in STRICT column "@ + t.schema.columns[c].name + ": "@
                        + type_text(cell_type(v)) + " does not match "@ + type_text(
                        type_of(t.schema.columns[c].decl),
                    ),
                ),
            ),
        }
}

/// The cells of a column of the wrong type.
pub open spec fn strict_column(t: TableModel) -> spec_fn(int) -> Seq<ViolationModel> {
    |c: int| gather(t.rows.len() as int, strict_row(t, c))
}

/// The `strict` violations of a table.
pub open spec fn strict_violations(t: TableModel) -> Seq<ViolationModel> {
    if t.schema.strict {
        gather(t.schema.columns.len() as int, strict_column(t))
    } else {
        seq![]
    }
}

fn strict_type(decl: &str) -> (r: StrictType)
    ensures
        r == type_of(decl@),
{
    let w = words_of(decl);
    let first = if w.len() > 0 {
        assert(w.deep_view()[0] == w@[0]@);
        upper(w[0].as_str())
    } else {
        let e = String::new();
        assert(e@ =~= seq![]);
        upper(e.as_str())
    };
    let ty = first.as_str();
    if str_eq(ty, "INT") || str_eq(ty, "INTEGER") || str_eq(ty, "BIGINT") || str_eq(ty, "SMALLINT")
        || str_eq(ty, "TINYINT") || str_eq(ty, "MEDIUMINT") || str_eq(ty, "INT2") || str_eq(
        ty,
        "INT8",
    ) {
        StrictType::Integer
    } else if str_eq(ty, "REAL") || str_eq(ty, "FLOAT") || str_eq(ty, "DOUBLE") {
        StrictType::Real
    } else if str_eq(ty, "TEXT") || str_eq(ty, "VARCHAR") || str_eq(ty, "CHAR") || str_eq(
        ty,
        "CLOB",
    ) {
        StrictType::Text
    } else if str_eq(ty, "BLOB") {
        StrictType::Blob
    } else {
        StrictType::Any
    }
}

fn strict_type_name(ty: StrictType) -> (r: &'static str)
    ensures
        r@ == type_text(ty),
{
    match ty {
        StrictType::Integer => "INTEGER",
        StrictType::Real => "REAL",
        StrictType::Text => "TEXT",
        StrictType::Blob => "BLOB",
        StrictType::Any => "ANY",
    }
}

fn value_type(v: &VcValue) -> (r: StrictType)
    ensures
        r == cell_type(v.deep_view()),
{
    match v {
        VcValue::Null => StrictType::Any,
        VcValue::Integer(_) => StrictType::Integer,
        VcValue::Real(_) => StrictType::Real,
        VcValue::Text(_) => StrictType::Text,
        VcValue::Blob(_) => StrictType::Blob,
    }
}

fn check_strict(out: &mut Vec<Violation>, table: &MergedTable, cols: &Vec<String>)
    requires
        cols.deep_view() == names(table.deep_view().schema.columns),
    ensures
        final(out).deep_view() == old(out).deep_view() + strict_violations(table.deep_view()),
{
    let ghost t = table.deep_view();
    let ghost start = out.deep_view();
    assert(start + seq![] =~= start);
    if !table.schema.strict {
        return;
    }
    let mut c: usize = 0;
    assert(start + gather(0, strict_column(t)) =~= start);
    while c < table.schema.columns.len()
        invariant
            c <= table.schema.columns@.len(),
            t == table.deep_view(),
            cols.deep_view() == names(t.schema.columns),
            out.deep_view() == start + gather(c as int, strict_column(t)),
        decreases table.schema.columns.len() - c,
    {
        let ghost here = out.deep_view();
        let col = &table.schema.columns[c];
        assert(t.schema.columns[c as int] == col.deep_view());
        let want = strict_type(col.decl.as_str());
        let ghost f = strict_row(t, c as int);
        let mut j: usize = 0;
        assert(here + gather(0, f) =~= here);
        while j < table.rows.len()
            invariant
                j <= table.rows@.len(),
                t == table.deep_view(),
                c < t.schema.columns.len(),
                t.schema.columns[c as int] == col.deep_view(),
                want == type_of(col.decl@),
                cols.deep_view() == names(t.schema.columns),
                f == strict_row(t, c as int),
                out.deep_view() == here + gather(j as int, f),
            decreases table.rows.len() - j,
        {
            let ghost before = out.deep_view();
            assert(t.rows[j as int] == table.rows@[j as int].deep_view());
            let row = &table.rows[j];
            if c < row.values.len() {
                assert(row.deep_view()[c as int] == row.values@[c as int].deep_view());
                let value = &row.values[c];
                let got = value_type(value);
                if want != StrictType::Any && !matches!(value, VcValue::Null) && got != want {
                    let mut detail = cat3("type mismatch in STRICT column ", col.name.as_str(), ": ");
                    detail.append(strict_type_name(got));
                    detail.append(" does not match ");
                    detail.append(strict_type_name(want));
                    report(out, table, cols, ViolationKind::Strict, j, detail);
                }
            }
            proof {
                lemma_gather(here, j as int, f);
                assert(out.deep_view() =~= before + f(j as int));
            }
            j = j + 1;
        }
        proof {
            lemma_gather(start, c as int, strict_column(t));
        }
        c = c + 1;
    }
}

// ---------------------------------------------------------------------------
// Checks
// ---------------------------------------------------------------------------

/// The check expression that opens at a place of a text, if one does: all words up to
/// the parenthesis that closes it.
pub open spec fn check_expr(toks: Seq<Seq<char>>) -> spec_fn(int) -> Seq<Seq<char>> {
    |i: int|
        if crate::sql::is_word(toks, i, "CHECK"@) && crate::sql::tok_is(toks, i + 1, "("@) {
            match crate::sql::group_at(toks, i + 1) {
                Some(parts) => seq![crate::text::joined(parts, " "@)],
                None => seq![],
            }
        } else {
            seq![]
        }
}

/// The check expressions in a text.
pub open spec fn check_exprs(text: Seq<char>) -> Seq<Seq<char>> {
    let toks = crate::sql::words(text);
    gather(toks.len() as int, check_expr(toks))
}

/// The check expressions of a column.
pub open spec fn column_checks(s: SchemaModel) -> spec_fn(int) -> Seq<Seq<char>> {
    |c: int| check_exprs(s.columns[c].decl)
}

/// The check expressions of a table constraint.
pub open spec fn constraint_checks(s: SchemaModel) -> spec_fn(int) -> Seq<Seq<char>> {
    |k: int| check_exprs(s.constraints[k])
}

/// All check expressions of a schema, those of columns first.
pub open spec fn checks_of(s: SchemaModel) -> Seq<Seq<char>> {
    gather(s.columns.len() as int, column_checks(s)) + gather(
        s.constraints.len() as int,
        constraint_checks(s),
    )
}

/// What a check says of a row: a violation where it is false or cannot be
/// judged.
pub open spec fn check_row(t: TableModel, expr: Seq<char>) -> spec_fn(int) -> Seq<ViolationModel> {
    |j: int|
        match crate::checks::check_of(expr, t.rows[j], names(t.schema.columns)) {
            Some(truth) => flag(
                truth == Some(false),
                row_violation(t, ViolationKind::Check, j, "check constraint failed: "@ + expr),
            ),
            None => seq![
                row_violation(
                    t,
                    ViolationKind::Check,
                    j,
                    "check expression not supported: "@ + expr,
                ),
            ],
        }
}

/// The violations of one check.
pub open spec fn check_table(t: TableModel) -> spec_fn(int) -> Seq<ViolationModel> {
    |k: int| gather(t.rows.len() as int, check_row(t, checks_of(t.schema)[k]))
}

/// The `check` violations of a table.
pub open spec fn check_violations(t: TableModel) -> Seq<ViolationModel> {
    gather(checks_of(t.schema).len() as int, check_table(t))
}

/// Append the check expressions of a text.
fn find_check_exprs(out: &mut Vec<String>, text: &str)
    ensures
        final(out).deep_view() == old(out).deep_view() + check_exprs(text@),
{
    let tokens = tokenize(text);
    let ghost toks = tokens.deep_view();
    let ghost f = check_expr(toks);
    let ghost start = out.deep_view();
    let mut i: usize = 0;
    assert(start + gather(0, f) =~= start);
    while i < tokens.len()
        invariant
            i <= tokens@.len(),
            toks == tokens.deep_view(),
            f == check_expr(toks),
            out.deep_view() == start + gather(i as int, f),
        decreases tokens.len() - i,
    {
        let ghost before = out.deep_view();
        if word_is(&tokens, i, "CHECK") && token_is(&tokens, i + 1, "(") {
            if let Some(parts) = read_group(&tokens, i + 1) {
                let e = join(&parts, " ");
                let ghost x = e@;
                out.push(e);
                assert(out.deep_view() =~= before.push(x));
            }
        }
        proof {
            lemma_gather(start, i as int, f);
            assert(out.deep_view() =~= before + f(i as int));
        }
        i = i + 1;
    }
}

/// All check expressions of a schema, those of columns first.
pub fn extract_checks(schema: &SchemaIR) -> (r: Vec<String>)
    ensures
        r.deep_view() == checks_of(schema.deep_view()),
{
    let ghost s = schema.deep_view();
    let ghost f = column_checks(s);
    let ghost g = constraint_checks(s);
    let mut out: Vec<String> = Vec::new();
    let mut c: usize = 0;
    assert(out.deep_view() =~= gather(0, f));
    while c < schema.columns.len()
        invariant
            c <= schema.columns@.len(),
            s == schema.deep_view(),
            f == column_checks(s),
            out.deep_view() == gather(c as int, f),
        decreases schema.columns.len() - c,
    {
        assert(s.columns[c as int] == schema.columns@[c as int].deep_view());
        find_check_exprs(&mut out, schema.columns[c].decl.as_str());
        c = c + 1;
    }
    let ghost start = out.deep_view();
    let mut k: usize = 0;
    assert(start + gather(0, g) =~= start);
    while k < schema.constraints.len()
        invariant
            k <= schema.constraints@.len(),
            s == schema.deep_view(),
            g == constraint_checks(s),
            out.deep_view() == start + gather(k as int, g),
        decreases schema.constraints.len() - k,
    {
        assert(s.constraints[k as int] == schema.constraints@[k as int]@);
        find_check_exprs(&mut out, schema.constraints[k].as_str());
        proof {
            lemma_gather(start, k as int, g);
        }
        k = k + 1;
    }
    out
}

fn check_checks(out: &mut Vec<Violation>, table: &MergedTable, cols: &Vec<String>)
    requires
        cols.deep_view() == names(table.deep_view().schema.columns),
    ensures
        final(out).deep_view() == old(out).deep_view() + check_violations(table.deep_view()),
{
    let ghost t = table.deep_view();
    let ghost start = out.deep_view();
    let checks = extract_checks(&table.schema);
    let ghost all = checks_of(t.schema);
    let mut k: usize = 0;
    assert(start + gather(0, check_table(t)) =~= start);
    while k < checks.len()
        invariant
            k <= checks@.len(),
            t == table.deep_view(),
            all == checks_of(t.schema),
            all == checks.deep_view(),
            cols.deep_view() == names(t.schema.columns),
            out.deep_view() == start + gather(k as int, check_table(t)),
        decreases checks.len() - k,
    {
        let ghost here = out.deep_view();
        let check = &checks[k];
        assert(all[k as int] == check@);
        let ghost f = check_row(t, check@);
        let mut j: usize = 0;
        assert(here + gather(0, f) =~= here);
        while j < table.rows.len()
            invariant
                j <= table.rows@.len(),
                t == table.deep_view(),
                cols.deep_view() == names(t.schema.columns),
                f == check_row(t, check@),
                out.deep_view() == here + gather(j as int, f),
            decreases table.rows.len() - j,
        {
            let ghost before = out.deep_view();
            assert(t.rows[j as int] == table.rows@[j as int].deep_view());
            match eval_check(check.as_str(), &table.rows[j], cols) {
                Ok(Some(false)) => {
                    let detail = cat2("check constraint failed: ", check.as_str());
                    report(out, table, cols, ViolationKind::Check, j, detail);
                },
                Ok(_) => {},
                Err(unsupported) => {
                    let detail = cat2("check expression not supported: ", unsupported.as_str());
                    report(out, table, cols, ViolationKind::Check, j, detail);
                },
            }
            proof {
                lemma_gather(here, j as int, f);
                assert(out.deep_view() =~= before + f(j as int));
            }
            j = j + 1;
        }
        proof {
            lemma_gather(start, k as int, check_table(t));
        }
        k = k + 1;
    }
}

// ---------------------------------------------------------------------------
// Unique
// ---------------------------------------------------------------------------

/// Does a text hold the word `UNIQUE`?
pub open spec fn says_unique(decl: Seq<char>) -> bool {
    let w = crate::text::split_words(decl);
    exists|i: int|
        0 <= i < w.len() && crate::text::ascii_uppercase(#[trigger] w[i])
            == crate::text::ascii_uppercase("UNIQUE"@)
}

/// A column that is unique by itself.
pub open spec fn unique_column(s: SchemaModel) -> spec_fn(int) -> Seq<Seq<Seq<char>>> {
    |c: int| flag(says_unique(s.columns[c].decl), seq![s.columns[c].name])
}

/// The columns of a `UNIQUE (..)` constraint.
pub open spec fn unique_list(constraint: Seq<char>) -> Option<Seq<Seq<char>>> {
    let toks = crate::sql::words(constraint);
    if crate::sql::is_word(toks, 0, "UNIQUE"@) {
        match crate::sql::paren_list(toks, 1) {
            Some((cols, _)) => Some(cols),
            None => None,
        }
    } else {
        None
    }
}

/// The column set of a table constraint, if it is one of uniqueness.
pub open spec fn unique_constraint(s: SchemaModel) -> spec_fn(int) -> Seq<Seq<Seq<char>>> {
    |k: int|
        match unique_list(s.constraints[k]) {
            Some(cols) => seq![cols],
            None => seq![],
        }
}

/// The column sets that must be unique: the primary key, then columns, then
/// table constraints.
pub open spec fn unique_sets(s: SchemaModel) -> Seq<Seq<Seq<char>>> {
    flag(s.pk.len() > 0, s.pk) + gather(s.columns.len() as int, unique_column(s)) + gather(
        s.constraints.len() as int,
        unique_constraint(s),
    )
}

/// Are all of these among the columns?
pub open spec fn all_found(columns: Seq<Seq<char>>, wanted: Seq<Seq<char>>) -> bool {
    forall|k: int|
        0 <= k < wanted.len() ==> crate::merge::column_index(columns, #[trigger] wanted[k]) is Some
}

/// The cells of a row for a set of columns.
pub open spec fn key_of(t: TableModel, j: int, set: Seq<Seq<char>>) -> RowModel {
    crate::merge::pk_cells(t.rows[j], set, names(t.schema.columns))
}

/// Does an earlier row have the same key?
pub open spec fn repeats(t: TableModel, j: int, set: Seq<Seq<char>>) -> bool {
    exists|i: int| 0 <= i < j && #[trigger] key_of(t, i, set) == key_of(t, j, set)
}

/// A row whose key an earlier row has; keys with a null never collide.
pub open spec fn unique_row(t: TableModel, set: Seq<Seq<char>>) -> spec_fn(int) -> Seq<
    ViolationModel,
> {
    |j: int|
        flag(
            !key_of(t, j, set).contains(CellModel::Null) && repeats(t, j, set),
            row_violation(
                t,
                ViolationKind::Unique,
                j,
                "duplicate key on columns ("@ + crate::text::joined(set, ", "@) + ")"@,
            ),
        )
}

/// The violations of one column set; a set with an unknown column has none.
pub open spec fn unique_set(t: TableModel) -> spec_fn(int) -> Seq<ViolationModel> {
    |k: int|
        if all_found(names(t.schema.columns), unique_sets(t.schema)[k]) {
            gather(t.rows.len() as int, unique_row(t, unique_sets(t.schema)[k]))
        } else {
            seq![]
        }
}

/// The `unique` violations of a table.
pub open spec fn unique_violations(t: TableModel) -> Seq<ViolationModel> {
    gather(unique_sets(t.schema).len() as int, unique_set(t))
}

fn has_unique_word(decl: &str) -> (r: bool)
    ensures
        r == says_unique(decl@),
{
    let w = words_of(decl);
    let ghost m = w.deep_view();
    let mut i: usize = 0;
    while i < w.len()
        invariant
            i <= w@.len(),
            m == w.deep_view(),
            m == crate::text::split_words(decl@),
            forall|k: int|
                0 <= k < i ==> crate::text::ascii_uppercase(#[trigger] m[k])
                    != crate::text::ascii_uppercase("UNIQUE"@),
        decreases w.len() - i,
    {
        assert(m[i as int] == w@[i as int]@);
        if eq_ignore_case(w[i].as_str(), "UNIQUE") {
            return true;
        }
        i = i + 1;
    }
    false
}

fn parse_unique_list(constraint: &str) -> (r: Option<Vec<String>>)
    ensures
        match unique_list(constraint@) {
            Some(cols) => r matches Some(v) && v.deep_view() == cols,
            None => r is None,
        },
{
    let tokens = tokenize(constraint);
    let mut i: usize = 0;
    if !next_is(&tokens, &mut i, "UNIQUE") {
        return None;
    }
    read_paren_list(&tokens, &mut i)
}

/// The column sets that must be unique.
pub fn extract_unique_sets(schema: &SchemaIR) -> (r: Vec<Vec<String>>)
    ensures
        r.deep_view() == unique_sets(schema.deep_view()),
{
    let ghost s = schema.deep_view();
    let ghost f = unique_column(s);
    let ghost g = unique_constraint(s);
    let mut out: Vec<Vec<String>> = Vec::new();
    if schema.pk.len() > 0 {
        out.push(schema.pk.dup());
    }
    assert(out.deep_view() =~= flag(s.pk.len() > 0, s.pk));
    let ghost start = out.deep_view();
    let mut c: usize = 0;
    assert(start + gather(0, f) =~= start);
    while c < schema.columns.len()
        invariant
            c <= schema.columns@.len(),
            s == schema.deep_view(),
            f == unique_column(s),
            out.deep_view() == start + gather(c as int, f),
        decreases schema.columns.len() - c,
    {
        let ghost before = out.deep_view();
        assert(s.columns[c as int] == schema.columns@[c as int].deep_view());
        if has_unique_word(schema.columns[c].decl.as_str()) {
            let mut one: Vec<String> = Vec::new();
            one.push(schema.columns[c].name.clone());
            assert(one.deep_view() =~= seq![s.columns[c as int].name]);
            out.push(one);
            assert(out.deep_view() =~= before.push(seq![s.columns[c as int].name]));
        }
        proof {
            lemma_gather(start, c as int, f);
            assert(out.deep_view() =~= before + f(c as int));
        }
        c = c + 1;
    }
    let ghost mid = out.deep_view();
    let mut k: usize = 0;
    assert(mid + gather(0, g) =~= mid);
    while k < schema.constraints.len()
        invariant
            k <= schema.constraints@.len(),
            s == schema.deep_view(),
            g == unique_constraint(s),
            out.deep_view() == mid + gather(k as int, g),
        decreases schema.constraints.len() - k,
    {
        let ghost before = out.deep_view();
        assert(s.constraints[k as int] == schema.constraints@[k as int]@);
        if let Some(columns) = parse_unique_list(schema.constraints[k].as_str()) {
            let ghost x = columns.deep_view();
            out.push(columns);
            assert(out.deep_view() =~= before.push(x));
        }
        proof {
            lemma_gather(mid, k as int, g);
            assert(out.deep_view() =~= before + g(k as int));
        }
        k = k + 1;
    }
    out
}

/// Are all of these among the columns?
pub fn columns_found(columns: &Vec<String>, wanted: &Vec<String>) -> (r: bool)
    ensures
        r == all_found(columns.deep_view(), wanted.deep_view()),
{
    let ghost w = wanted.deep_view();
    let mut k: usize = 0;
    while k < wanted.len()
        invariant
            k <= wanted@.len(),
            w == wanted.deep_view(),
            forall|i: int|
                0 <= i < k ==> crate::merge::column_index(
                    columns.deep_view(),
                    #[trigger] w[i],
                ) is Some,
        decreases wanted.len() - k,
    {
        assert(w[k as int] == wanted@[k as int]@);
        if find_column(columns, wanted[k].as_str()).is_none() {
            return false;
        }
        k = k + 1;
    }
    true
}

fn has_null(cells: &Vec<VcValue>) -> (r: bool)
    ensures
        r == cells.deep_view().contains(CellModel::Null),
{
    let ghost m = cells.deep_view();
    let mut i: usize = 0;
    while i < cells.len()
        invariant
            i <= cells@.len(),
            m == cells.deep_view(),
            forall|k: int| 0 <= k < i ==> #[trigger] m[k] != CellModel::Null,
        decreases cells.len() - i,
    {
        assert(m[i as int] == cells@[i as int].deep_view());
        if matches!(cells[i], VcValue::Null) {
            return true;
        }
        i = i + 1;
    }
    false
}

pub fn has_key(keys: &Vec<Vec<VcValue>>, key: &Vec<VcValue>) -> (r: bool)
    ensures
        r == keys.deep_view().contains(key.deep_view()),
{
    let ghost m = keys.deep_view();
    let mut i: usize = 0;
    while i < keys.len()
        invariant
            i <= keys@.len(),
            m == keys.deep_view(),
            forall|k: int| 0 <= k < i ==> #[trigger] m[k] != key.deep_view(),
        decreases keys.len() - i,
    {
        assert(m[i as int] == keys@[i as int].deep_view());
        if keys[i].same(key) {
            return true;
        }
        i = i + 1;
    }
    false
}

/// The violations of one column set.
fn check_unique_set(
    out: &mut Vec<Violation>,
    table: &MergedTable,
    cols: &Vec<String>,
    set: &Vec<String>,
)
    requires
        cols.deep_view() == names(table.deep_view().schema.columns),
    ensures
        final(out).deep_view() == old(out).deep_view() + gather(
            table.rows@.len() as int,
            unique_row(table.deep_view(), set.deep_view()),
        ),
{
    let ghost t = table.deep_view();
    let ghost s = set.deep_view();
    let ghost here = out.deep_view();
    let ghost f = unique_row(t, s);
    let mut seen: Vec<Vec<VcValue>> = Vec::new();
    let mut j: usize = 0;
    assert(here + gather(0, f) =~= here);
    while j < table.rows.len()
        invariant
            j <= table.rows@.len(),
            t == table.deep_view(),
            s == set.deep_view(),
            cols.deep_view() == names(t.schema.columns),
            f == unique_row(t, s),
            seen.deep_view().len() == j,
            forall|i: int| 0 <= i < j ==> #[trigger] seen.deep_view()[i] == key_of(t, i, s),
            out.deep_view() == here + gather(j as int, f),
        decreases table.rows.len() - j,
    {
        let ghost before = out.deep_view();
        let ghost got = seen.deep_view();
        assert(t.rows[j as int] == table.rows@[j as int].deep_view());
        let key = extract_pk(&table.rows[j], set, cols);
        let ghost x = key.deep_view();
        assert(x == key_of(t, j as int, s));
        let dup = has_key(&seen, &key);
        assert(dup == repeats(t, j as int, s)) by {
            if dup {
                let i = choose|i: int| 0 <= i < got.len() && got[i] == x;
                assert(key_of(t, i, s) == got[i]);
            }
            if repeats(t, j as int, s) {
                let i = choose|i: int|
                    0 <= i < j && #[trigger] key_of(t, i, s) == key_of(t, j as int, s);
                assert(got[i] == x);
            }
        }
        if !has_null(&key) && dup {
            let columns = join(set, ", ");
            let detail = cat3("duplicate key on columns (", columns.as_str(), ")");
            report(out, table, cols, ViolationKind::Unique, j, detail);
        }
        seen.push(key);
        assert(seen.deep_view() =~= got.push(x));
        proof {
            lemma_gather(here, j as int, f);
            assert(out.deep_view() =~= before + f(j as int));
        }
        j = j + 1;
    }
}

fn check_unique(out: &mut Vec<Violation>, table: &MergedTable, cols: &Vec<String>)
    requires
        cols.deep_view() == names(table.deep_view().schema.columns),
    ensures
        final(out).deep_view() == old(out).deep_view() + unique_violations(table.deep_view()),
{
    let ghost t = table.deep_view();
    let ghost start = out.deep_view();
    let sets = extract_unique_sets(&table.schema);
    let ghost all = unique_sets(t.schema);
    let mut k: usize = 0;
    assert(start + gather(0, unique_set(t)) =~= start);
    while k < sets.len()
        invariant
            k <= sets@.len(),
            t == table.deep_view(),
            all == unique_sets(t.schema),
            all == sets.deep_view(),
            cols.deep_view() == names(t.schema.columns),
            out.deep_view() == start + gather(k as int, unique_set(t)),
        decreases sets.len() - k,
    {
        let ghost here = out.deep_view();
        assert(all[k as int] == sets@[k as int].deep_view());
        assert(here + seq![] =~= here);
        if columns_found(cols, &sets[k]) {
            check_unique_set(out, table, cols, &sets[k]);
        }
        proof {
            lemma_gather(start, k as int, unique_set(t));
        }
        k = k + 1;
    }
}

// ---------------------------------------------------------------------------
// Foreign keys
// ---------------------------------------------------------------------------

/// A foreign key.
struct ForeignKeyDef {
    columns: Vec<String>,
    parent_table: String,
    parent_columns: Vec<String>,
}

/// What a foreign key stands for.
pub struct FkModel {
    pub columns: Seq<Seq<char>>,
    pub parent_table: Seq<char>,
    pub parent_columns: Seq<Seq<char>>,
}

impl DeepView for ForeignKeyDef {
    type V = FkModel;

    closed spec fn deep_view(&self) -> FkModel {
        FkModel {
            columns: self.columns.deep_view(),
            parent_table: self.parent_table@,
            parent_columns: self.parent_columns.deep_view(),
        }
    }
}

/// `FOREIGN KEY (a, b) REFERENCES parent (x, y)`; without a list behind the
/// parent its columns have the same names.
pub open spec fn table_fk(constraint: Seq<char>) -> Option<FkModel> {
    let toks = crate::sql::words(constraint);
    if !crate::sql::is_word(toks, 0, "FOREIGN"@) || !crate::sql::is_word(toks, 1, "KEY"@) {
        None
    } else {
        match crate::sql::paren_list(toks, 2) {
            None => None,
            Some((columns, i)) => if !crate::sql::is_word(toks, i, "REFERENCES"@) || i + 1
                >= toks.len() {
                None
            } else {
                let parent_table = crate::sql::unquoted(toks[i + 1]);
                if crate::sql::tok_is(toks, i + 2, "("@) {
                    match crate::sql::paren_list(toks, i + 2) {
                        Some((parent_columns, _)) => Some(
                            FkModel { columns, parent_table, parent_columns },
                        ),
                        None => None,
                    }
                } else {
                    Some(FkModel { columns, parent_table, parent_columns: columns })
                }
            },
        }
    }
}

/// The first place from `i` on that holds a keyword.
pub open spec fn keyword_from(toks: Seq<Seq<char>>, w: Seq<char>, i: int) -> Option<int>
    decreases toks.len() - i,
{
    if i >= toks.len() {
        None
    } else if crate::sql::is_word(toks, i, w) {
        Some(i)
    } else {
        keyword_from(toks, w, i + 1)
    }
}

/// `REFERENCES parent (x, y)` in the declaration of a column.
pub open spec fn column_fk(name: Seq<char>, decl: Seq<char>) -> Option<FkModel> {
    let toks = crate::sql::words(decl);
    match keyword_from(toks, "REFERENCES"@, 0) {
        None => None,
        Some(i) => if i + 1 >= toks.len() {
            None
        } else {
            let columns = seq![name];
            let parent_table = crate::sql::unquoted(toks[i + 1]);
            if crate::sql::tok_is(toks, i + 2, "("@) {
                match crate::sql::paren_list(toks, i + 2) {
                    Some((parent_columns, _)) => Some(
                        FkModel { columns, parent_table, parent_columns },
                    ),
                    None => None,
                }
            } else {
                Some(FkModel { columns, parent_table, parent_columns: seq![] })
            }
        },
    }
}

/// An item, or nothing.
pub open spec fn optional<A>(x: Option<A>) -> Seq<A> {
    match x {
        Some(a) => seq![a],
        None => seq![],
    }
}

/// The foreign key of a table constraint.
pub open spec fn constraint_fk(s: SchemaModel) -> spec_fn(int) -> Seq<FkModel> {
    |k: int| optional(table_fk(s.constraints[k]))
}

/// The foreign key of a column.
pub open spec fn own_fk(s: SchemaModel) -> spec_fn(int) -> Seq<FkModel> {
    |c: int| optional(column_fk(s.columns[c].name, s.columns[c].decl))
}

/// The foreign keys of a schema, those of table constraints first.
pub open spec fn foreign_keys(s: SchemaModel) -> Seq<FkModel> {
    gather(s.constraints.len() as int, constraint_fk(s)) + gather(
        s.columns.len() as int,
        own_fk(s),
    )
}

/// The cell of a named column.
pub open spec fn named_cell(row: RowModel, columns: Seq<Seq<char>>, name: Seq<char>) -> Option<
    CellModel,
> {
    match crate::merge::column_index(columns, name) {
        Some(i) => crate::merge::cell_at(row, i),
        None => None,
    }
}

/// Does the row have a cell other than null in the named column?
pub open spec fn has_cell(row: RowModel, columns: Seq<Seq<char>>, name: Seq<char>) -> bool {
    named_cell(row, columns, name) matches Some(v) && !(v is Null)
}

/// The cells of a foreign key; none where one is null or missing.
pub open spec fn fk_key(row: RowModel, columns: Seq<Seq<char>>, wanted: Seq<Seq<char>>) -> Option<
    RowModel,
> {
    if forall|k: int| 0 <= k < wanted.len() ==> has_cell(row, columns, #[trigger] wanted[k]) {
        Some(wanted.map_values(|n: Seq<char>| named_cell(row, columns, n)->0))
    } else {
        None
    }
}

/// The text of a foreign key.
pub open spec fn fk_text(fk: FkModel) -> Seq<char> {
    "foreign key ("@ + crate::text::joined(fk.columns, ", "@) + ") -> "@ + fk.parent_table + " ("@
        + crate::text::joined(fk.parent_columns, ", "@) + ")"@
}

/// The first schema of a table.
pub open spec fn schema_named(schemas: Seq<SchemaModel>, name: Seq<char>) -> Option<SchemaModel>
    decreases schemas.len(),
{
    if schemas.len() == 0 {
        None
    } else if schemas[0].table == name {
        Some(schemas[0])
    } else {
        schema_named(schemas.drop_first(), name)
    }
}

/// The rows of the first table of a name.
pub open spec fn rows_named(tables: Seq<TableModel>, name: Seq<char>) -> Seq<RowModel>
    decreases tables.len(),
{
    if tables.len() == 0 {
        seq![]
    } else if tables[0].name == name {
        tables[0].rows
    } else {
        rows_named(tables.drop_first(), name)
    }
}

/// Does one of the rows have this key?
pub open spec fn parent_has(
    rows: Seq<RowModel>,
    columns: Seq<Seq<char>>,
    wanted: Seq<Seq<char>>,
    key: RowModel,
) -> bool {
    exists|i: int|
        0 <= i < rows.len() && fk_key(#[trigger] rows[i], columns, wanted) == Some(key)
}

/// A row whose key is set, in a table whose parent is not there.
pub open spec fn orphan_row(t: TableModel, fk: FkModel) -> spec_fn(int) -> Seq<ViolationModel> {
    |j: int|
        flag(
            fk_key(t.rows[j], names(t.schema.columns), fk.columns) is Some,
            row_violation(t, ViolationKind::ForeignKey, j, fk_text(fk)),
        )
}

/// Every row of a table, with one detail.
pub open spec fn every_row(t: TableModel, detail: Seq<char>) -> spec_fn(int) -> Seq<
    ViolationModel,
> {
    |j: int| seq![row_violation(t, ViolationKind::ForeignKey, j, detail)]
}

/// A row whose key no parent row has.
pub open spec fn dangling_row(
    t: TableModel,
    fk: FkModel,
    parent: SchemaModel,
    rows: Seq<RowModel>,
) -> spec_fn(int) -> Seq<ViolationModel> {
    |j: int|
        match fk_key(t.rows[j], names(t.schema.columns), fk.columns) {
            Some(key) => flag(
                !parent_has(rows, names(parent.columns), fk.parent_columns, key),
                row_violation(t, ViolationKind::ForeignKey, j, fk_text(fk)),
            ),
            None => seq![],
        }
}

/// The violations of one foreign key. A parent that is not there, or a column
/// that a schema does not have, is a violation too.
pub open spec fn fk_violations(
    tables: Seq<TableModel>,
    schemas: Seq<SchemaModel>,
    t: TableModel,
    fk: FkModel,
) -> Seq<ViolationModel> {
    let n = t.rows.len() as int;
    match schema_named(schemas, fk.parent_table) {
        None => gather(n, orphan_row(t, fk)),
        Some(parent) => if !all_found(names(t.schema.columns), fk.columns) {
            gather(
                n,
                every_row(
                    t,
                    "foreign key columns not found in table "@ + t.name + ": ("@
                        + crate::text::joined(fk.columns, ", "@) + ")"@,
                ),
            )
        } else if !all_found(names(parent.columns), fk.parent_columns) {
            gather(
                n,
                every_row(
                    t,
                    "referenced columns not found in table "@ + fk.parent_table + ": ("@
                        + crate::text::joined(fk.parent_columns, ", "@) + ")"@,
                ),
            )
        } else {
            gather(n, dangling_row(t, fk, parent, rows_named(tables, fk.parent_table)))
        },
    }
}

/// The violations of each foreign key.
pub open spec fn fk_each(
    tables: Seq<TableModel>,
    schemas: Seq<SchemaModel>,
    t: TableModel,
) -> spec_fn(int) -> Seq<ViolationModel> {
    |k: int| fk_violations(tables, schemas, t, foreign_keys(t.schema)[k])
}

/// The `foreign key` violations of a table.
pub open spec fn foreign_violations(
    tables: Seq<TableModel>,
    schemas: Seq<SchemaModel>,
    t: TableModel,
) -> Seq<ViolationModel> {
    gather(foreign_keys(t.schema).len() as int, fk_each(tables, schemas, t))
}

/// A foreign key matches its model, which may be none.
spec fn fk_is(r: Option<ForeignKeyDef>, m: Option<FkModel>) -> bool {
    match m {
        Some(fk) => r matches Some(x) && x.deep_view() == fk,
        None => r is None,
    }
}

fn parse_table_fk(constraint: &str) -> (r: Option<ForeignKeyDef>)
    ensures
        fk_is(r, table_fk(constraint@)),
{
    let tokens = tokenize(constraint);
    let ghost toks = tokens.deep_view();
    let mut i: usize = 0;
    if !next_is(&tokens, &mut i, "FOREIGN") || !next_is(&tokens, &mut i, "KEY") {
        return None;
    }
    let columns = match read_paren_list(&tokens, &mut i) {
        Some(c) => c,
        None => {
            return None;
        },
    };
    if !next_is(&tokens, &mut i, "REFERENCES") {
        return None;
    }
    if i >= tokens.len() {
        return None;
    }
    assert(toks[i as int] == tokens@[i as int]@);
    let parent_table = unquote_ident(tokens[i].as_str());
    i = i + 1;
    let parent_columns = if token_is(&tokens, i, "(") {
        match read_paren_list(&tokens, &mut i) {
            Some(c) => c,
            None => {
                return None;
            },
        }
    } else {
        columns.dup()
    };
    Some(ForeignKeyDef { columns, parent_table, parent_columns })
}

fn find_keyword(tokens: &Vec<String>, w: &str) -> (r: Option<usize>)
    ensures
        match keyword_from(tokens.deep_view(), w@, 0) {
            Some(i) => r matches Some(k) && k == i && i < tokens@.len(),
            None => r is None,
        },
{
    let ghost toks = tokens.deep_view();
    let mut i: usize = 0;
    while i < tokens.len()
        invariant
            i <= tokens@.len(),
            toks == tokens.deep_view(),
            keyword_from(toks, w@, i as int) == keyword_from(toks, w@, 0),
        decreases tokens.len() - i,
    {
        if word_is(tokens, i, w) {
            return Some(i);
        }
        i = i + 1;
    }
    None
}

fn parse_column_fk(name: &str, decl: &str) -> (r: Option<ForeignKeyDef>)
    ensures
        fk_is(r, column_fk(name@, decl@)),
{
    let tokens = tokenize(decl);
    let ghost toks = tokens.deep_view();
    let pos = match find_keyword(&tokens, "REFERENCES") {
        Some(p) => p,
        None => {
            return None;
        },
    };
    assert(pos < tokens.len());
    if pos + 1 >= tokens.len() {
        return None;
    }
    assert(toks[pos + 1] == tokens@[pos + 1]@);
    let parent_table = unquote_ident(tokens[pos + 1].as_str());
    let mut i: usize = pos + 2;
    let mut columns: Vec<String> = Vec::new();
    columns.push(name.to_owned());
    assert(columns.deep_view() =~= seq![name@]);
    let parent_columns = if token_is(&tokens, i, "(") {
        match read_paren_list(&tokens, &mut i) {
            Some(c) => c,
            None => {
                return None;
            },
        }
    } else {
        let none: Vec<String> = Vec::new();
        assert(none.deep_view() =~= seq![]);
        none
    };
    Some(ForeignKeyDef { columns, parent_table, parent_columns })
}

/// The foreign keys of a schema, those of table constraints first.
fn extract_foreign_keys(schema: &SchemaIR) -> (r: Vec<ForeignKeyDef>)
    ensures
        r.deep_view() == foreign_keys(schema.deep_view()),
{
    let ghost s = schema.deep_view();
    let ghost f = constraint_fk(s);
    let ghost g = own_fk(s);
    let mut out: Vec<ForeignKeyDef> = Vec::new();
    let mut k: usize = 0;
    assert(out.deep_view() =~= gather(0, f));
    while k < schema.constraints.len()
        invariant
            k <= schema.constraints@.len(),
            s == schema.deep_view(),
            f == constraint_fk(s),
            out.deep_view() == gather(k as int, f),
        decreases schema.constraints.len() - k,
    {
        let ghost before = out.deep_view();
        assert(s.constraints[k as int] == schema.constraints@[k as int]@);
        if let Some(fk) = parse_table_fk(schema.constraints[k].as_str()) {
            let ghost x = fk.deep_view();
            out.push(fk);
            assert(out.deep_view() =~= before.push(x));
        }
        assert(out.deep_view() =~= before + f(k as int));
        k = k + 1;
    }
    let ghost start = out.deep_view();
    let mut c: usize = 0;
    assert(start + gather(0, g) =~= start);
    while c < schema.columns.len()
        invariant
            c <= schema.columns@.len(),
            s == schema.deep_view(),
            g == own_fk(s),
            out.deep_view() == start + gather(c as int, g),
        decreases schema.columns.len() - c,
    {
        let ghost before = out.deep_view();
        assert(s.columns[c as int] == schema.columns@[c as int].deep_view());
        let col = &schema.columns[c];
        if let Some(fk) = parse_column_fk(col.name.as_str(), col.decl.as_str()) {
            let ghost x = fk.deep_view();
            out.push(fk);
            assert(out.deep_view() =~= before.push(x));
        }
        proof {
            lemma_gather(start, c as int, g);
            assert(out.deep_view() =~= before + g(c as int));
        }
        c = c + 1;
    }
    out
}

/// The cells of a foreign key; none where one is null or missing.
fn fk_key_of(row: &VcRow, columns: &Vec<String>, wanted: &Vec<String>) -> (r: Option<Vec<VcValue>>)
    ensures
        match fk_key(row.deep_view(), columns.deep_view(), wanted.deep_view()) {
            Some(key) => r matches Some(v) && v.deep_view() == key,
            None => r is None,
        },
{
    let ghost m = row.deep_view();
    let ghost cs = columns.deep_view();
    let ghost w = wanted.deep_view();
    let mut key: Vec<VcValue> = Vec::new();
    let mut k: usize = 0;
    while k < wanted.len()
        invariant
            k <= wanted@.len(),
            m == row.deep_view(),
            cs == columns.deep_view(),
            w == wanted.deep_view(),
            key@.len() == k,
            forall|i: int| 0 <= i < k ==> has_cell(m, cs, #[trigger] w[i]),
            forall|i: int|
                0 <= i < k ==> #[trigger] key.deep_view()[i] == named_cell(m, cs, w[i])->0,
        decreases wanted.len() - k,
    {
        assert(w[k as int] == wanted@[k as int]@);
        let ghost before = key.deep_view();
        match find_column(columns, wanted[k].as_str()) {
            Some(i) => {
                if i >= row.values.len() {
                    assert(!has_cell(m, cs, w[k as int]));
                    return None;
                }
                assert(m[i as int] == row.values@[i as int].deep_view());
                if matches!(row.values[i], VcValue::Null) {
                    assert(!has_cell(m, cs, w[k as int]));
                    return None;
                }
                let v = row.values[i].dup();
                let ghost x = v.deep_view();
                key.push(v);
                assert(key.deep_view() =~= before.push(x));
            },
            None => {
                assert(!has_cell(m, cs, w[k as int]));
                return None;
            },
        }
        k = k + 1;
    }
    assert(key.deep_view() =~= w.map_values(|n: Seq<char>| named_cell(m, cs, n)->0));
    Some(key)
}

fn find_schema<'a>(schemas: &'a Vec<SchemaIR>, name: &str) -> (r: Option<&'a SchemaIR>)
    ensures
        match schema_named(schemas.deep_view(), name@) {
            Some(s) => r matches Some(x) && x.deep_view() == s,
            None => r is None,
        },
{
    let ghost s = schemas.deep_view();
    let mut i: usize = 0;
    assert(s.skip(0) =~= s);
    while i < schemas.len()
        invariant
            i <= schemas@.len(),
            s == schemas.deep_view(),
            schema_named(s.skip(i as int), name@) == schema_named(s, name@),
        decreases schemas.len() - i,
    {
        assert(s.skip(i as int)[0] == schemas@[i as int].deep_view());
        assert(s.skip(i as int).drop_first() =~= s.skip(i + 1));
        if str_eq(schemas[i].table.as_str(), name) {
            return Some(&schemas[i]);
        }
        i = i + 1;
    }
    assert(s.skip(i as int) =~= seq![]);
    None
}

/// The keys of the rows of the first table of a name.
fn parent_keys(
    tables: &Vec<MergedTable>,
    name: &str,
    columns: &Vec<String>,
    wanted: &Vec<String>,
) -> (r: Vec<Vec<VcValue>>)
    ensures
        forall|key: RowModel| #[trigger]
            r.deep_view().contains(key) <==> parent_has(
                rows_named(tables.deep_view(), name@),
                columns.deep_view(),
                wanted.deep_view(),
                key,
            ),
{
    let ghost s = tables.deep_view();
    let mut i: usize = 0;
    assert(s.skip(0) =~= s);
    while i < tables.len()
        invariant
            i <= tables@.len(),
            s == tables.deep_view(),
            rows_named(s.skip(i as int), name@) == rows_named(s, name@),
        decreases tables.len() - i,
    {
        assert(s.skip(i as int)[0] == tables@[i as int].deep_view());
        assert(s.skip(i as int).drop_first() =~= s.skip(i + 1));
        if str_eq(tables[i].name.as_str(), name) {
            return keys_of(&tables[i].rows, columns, wanted);
        }
        i = i + 1;
    }
    assert(s.skip(i as int) =~= seq![]);
    let none: Vec<VcRow> = Vec::new();
    assert(none.deep_view() =~= seq![]);
    keys_of(&none, columns, wanted)
}

/// The keys of rows.
fn keys_of(rows: &Vec<VcRow>, columns: &Vec<String>, wanted: &Vec<String>) -> (r: Vec<
    Vec<VcValue>,
>)
    ensures
        forall|key: RowModel| #[trigger]
            r.deep_view().contains(key) <==> parent_has(
                rows.deep_view(),
                columns.deep_view(),
                wanted.deep_view(),
                key,
            ),
{
    let ghost m = rows.deep_view();
    let ghost cs = columns.deep_view();
    let ghost w = wanted.deep_view();
    let mut out: Vec<Vec<VcValue>> = Vec::new();
    let mut i: usize = 0;
    assert(m.take(0) =~= seq![]);
    while i < rows.len()
        invariant
            i <= rows@.len(),
            m == rows.deep_view(),
            cs == columns.deep_view(),
            w == wanted.deep_view(),
            forall|key: RowModel| #[trigger]
                out.deep_view().contains(key) <==> parent_has(m.take(i as int), cs, w, key),
        decreases rows.len() - i,
    {
        let ghost before = out.deep_view();
        let ghost was = m.take(i as int);
        let ghost now = m.take(i + 1);
        assert(m[i as int] == rows@[i as int].deep_view());
        assert(now =~= was.push(m[i as int]));
        if let Some(key) = fk_key_of(&rows[i], columns, wanted) {
            let ghost x = key.deep_view();
            out.push(key);
            assert(out.deep_view() =~= before.push(x));
        }
        assert forall|key: RowModel| #[trigger] out.deep_view().contains(key) <==> parent_has(
            now,
            cs,
            w,
            key,
        ) by {
            let after = out.deep_view();
            if after.contains(key) {
                let k = choose|k: int| 0 <= k < after.len() && after[k] == key;
                if k < before.len() {
                    assert(before[k] == key);
                    assert(before.contains(key));
                    let q = choose|q: int|
                        0 <= q < was.len() && fk_key(#[trigger] was[q], cs, w) == Some(key);
                    assert(now[q] == was[q]);
                } else {
                    assert(fk_key(now[i as int], cs, w) == Some(key));
                }
            }
            if parent_has(now, cs, w, key) {
                let q = choose|q: int|
                    0 <= q < now.len() && fk_key(#[trigger] now[q], cs, w) == Some(key);
                if q < i {
                    assert(was[q] == now[q]);
                    assert(before.contains(key));
                    let k = choose|k: int| 0 <= k < before.len() && before[k] == key;
                    assert(after[k] == key);
                } else {
                    assert(after[before.len() as int] == key);
                }
            }
        }
        i = i + 1;
    }
    assert(m.take(i as int) =~= m);
    out
}

/// The text of a foreign key.
fn fk_detail(fk: &ForeignKeyDef) -> (r: String)
    ensures
        r@ == fk_text(fk.deep_view()),
{
    let own = join(&fk.columns, ", ");
    let parent = join(&fk.parent_columns, ", ");
    let mut out = cat3("foreign key (", own.as_str(), ") -> ");
    out.append(fk.parent_table.as_str());
    out.append(" (");
    out.append(parent.as_str());
    out.append(")");
    out
}

/// Report every row, with one detail.
fn report_all(out: &mut Vec<Violation>, table: &MergedTable, cols: &Vec<String>, detail: String)
    requires
        cols.deep_view() == names(table.deep_view().schema.columns),
    ensures
        final(out).deep_view() == old(out).deep_view() + gather(
            table.rows@.len() as int,
            every_row(table.deep_view(), detail@),
        ),
{
    let ghost t = table.deep_view();
    let ghost here = out.deep_view();
    let ghost f = every_row(t, detail@);
    let mut j: usize = 0;
    assert(here + gather(0, f) =~= here);
    while j < table.rows.len()
        invariant
            j <= table.rows@.len(),
            t == table.deep_view(),
            cols.deep_view() == names(t.schema.columns),
            f == every_row(t, detail@),
            out.deep_view() == here + gather(j as int, f),
        decreases table.rows.len() - j,
    {
        let ghost before = out.deep_view();
        report(out, table, cols, ViolationKind::ForeignKey, j, detail.clone());
        proof {
            lemma_gather(here, j as int, f);
            assert(out.deep_view() =~= before + f(j as int));
        }
        j = j + 1;
    }
}

/// Report the rows whose key is set.
fn report_orphans(
    out: &mut Vec<Violation>,
    table: &MergedTable,
    cols: &Vec<String>,
    fk: &ForeignKeyDef,
)
    requires
        cols.deep_view() == names(table.deep_view().schema.columns),
    ensures
        final(out).deep_view() == old(out).deep_view() + gather(
            table.rows@.len() as int,
            orphan_row(table.deep_view(), fk.deep_view()),
        ),
{
    let ghost t = table.deep_view();
    let ghost here = out.deep_view();
    let ghost f = orphan_row(t, fk.deep_view());
    let mut j: usize = 0;
    assert(here + gather(0, f) =~= here);
    while j < table.rows.len()
        invariant
            j <= table.rows@.len(),
            t == table.deep_view(),
            cols.deep_view() == names(t.schema.columns),
            f == orphan_row(t, fk.deep_view()),
            out.deep_view() == here + gather(j as int, f),
        decreases table.rows.len() - j,
    {
        let ghost before = out.deep_view();
        assert(t.rows[j as int] == table.rows@[j as int].deep_view());
        if fk_key_of(&table.rows[j], cols, &fk.columns).is_some() {
            let detail = fk_detail(fk);
            report(out, table, cols, ViolationKind::ForeignKey, j, detail);
        }
        proof {
            lemma_gather(here, j as int, f);
            assert(out.deep_view() =~= before + f(j as int));
        }
        j = j + 1;
    }
}

/// Report the rows whose key no parent row has.
fn report_dangling(
    out: &mut Vec<Violation>,
    table: &MergedTable,
    cols: &Vec<String>,
    fk: &ForeignKeyDef,
    parent: &SchemaIR,
    parent_cols: &Vec<String>,
    tables: &Vec<MergedTable>,
)
    requires
        cols.deep_view() == names(table.deep_view().schema.columns),
        parent_cols.deep_view() == names(parent.deep_view().columns),
    ensures
        final(out).deep_view() == old(out).deep_view() + gather(
            table.rows@.len() as int,
            dangling_row(
                table.deep_view(),
                fk.deep_view(),
                parent.deep_view(),
                rows_named(tables.deep_view(), fk.deep_view().parent_table),
            ),
        ),
{
    let ghost t = table.deep_view();
    let ghost here = out.deep_view();
    let ghost rows = rows_named(tables.deep_view(), fk.deep_view().parent_table);
    let ghost f = dangling_row(t, fk.deep_view(), parent.deep_view(), rows);
    let keys = parent_keys(tables, fk.parent_table.as_str(), parent_cols, &fk.parent_columns);
    let mut j: usize = 0;
    assert(here + gather(0, f) =~= here);
    while j < table.rows.len()
        invariant
            j <= table.rows@.len(),
            t == table.deep_view(),
            cols.deep_view() == names(t.schema.columns),
            f == dangling_row(t, fk.deep_view(), parent.deep_view(), rows),
            forall|key: RowModel| #[trigger]
                keys.deep_view().contains(key) <==> parent_has(
                    rows,
                    names(parent.deep_view().columns),
                    fk.deep_view().parent_columns,
                    key,
                ),
            out.deep_view() == here + gather(j as int, f),
        decreases table.rows.len() - j,
    {
        let ghost before = out.deep_view();
        assert(t.rows[j as int] == table.rows@[j as int].deep_view());
        if let Some(key) = fk_key_of(&table.rows[j], cols, &fk.columns) {
            if !has_key(&keys, &key) {
                let detail = fk_detail(fk);
                report(out, table, cols, ViolationKind::ForeignKey, j, detail);
            }
        }
        proof {
            lemma_gather(here, j as int, f);
            assert(out.deep_view() =~= before + f(j as int));
        }
        j = j + 1;
    }
}

/// The violations of one foreign key.
fn check_foreign_key(
    out: &mut Vec<Violation>,
    tables: &Vec<MergedTable>,
    table: &MergedTable,
    cols: &Vec<String>,
    schemas: &Vec<SchemaIR>,
    fk: &ForeignKeyDef,
)
    requires
        cols.deep_view() == names(table.deep_view().schema.columns),
    ensures
        final(out).deep_view() == old(out).deep_view() + fk_violations(
            tables.deep_view(),
            schemas.deep_view(),
            table.deep_view(),
            fk.deep_view(),
        ),
{
    let parent = match find_schema(schemas, fk.parent_table.as_str()) {
        Some(p) => p,
        None => {
            report_orphans(out, table, cols, fk);
            return;
        },
    };
    if !columns_found(cols, &fk.columns) {
        let own = join(&fk.columns, ", ");
        let mut detail = cat3("foreign key columns not found in table ", table.name.as_str(), ": (");
        detail.append(own.as_str());
        detail.append(")");
        report_all(out, table, cols, detail);
        return;
    }
    let parent_cols = column_names(&parent.columns);
    if !columns_found(&parent_cols, &fk.parent_columns) {
        let other = join(&fk.parent_columns, ", ");
        let mut detail = cat3(
            "referenced columns not found in table ",
            fk.parent_table.as_str(),
            ": (",
        );
        detail.append(other.as_str());
        detail.append(")");
        report_all(out, table, cols, detail);
        return;
    }
    report_dangling(out, table, cols, fk, parent, &parent_cols, tables);
}

fn check_foreign_keys(
    out: &mut Vec<Violation>,
    tables: &Vec<MergedTable>,
    table: &MergedTable,
    cols: &Vec<String>,
    schemas: &Vec<SchemaIR>,
)
    requires
        cols.deep_view() == names(table.deep_view().schema.columns),
    ensures
        final(out).deep_view() == old(out).deep_view() + foreign_violations(
            tables.deep_view(),
            schemas.deep_view(),
            table.deep_view(),
        ),
{
    let ghost t = table.deep_view();
    let ghost start = out.deep_view();
    let fks = extract_foreign_keys(&table.schema);
    let ghost all = foreign_keys(t.schema);
    let ghost f = fk_each(tables.deep_view(), schemas.deep_view(), t);
    let mut k: usize = 0;
    assert(start + gather(0, f) =~= start);
    while k < fks.len()
        invariant
            k <= fks@.len(),
            t == table.deep_view(),
            all == foreign_keys(t.schema),
            all == fks.deep_view(),
            cols.deep_view() == names(t.schema.columns),
            f == fk_each(tables.deep_view(), schemas.deep_view(), t),
            out.deep_view() == start + gather(k as int, f),
        decreases fks.len() - k,
    {
        assert(all[k as int] == fks@[k as int].deep_view());
        check_foreign_key(out, tables, table, cols, schemas, &fks[k]);
        proof {
            lemma_gather(start, k as int, f);
        }
        k = k + 1;
    }
}

// ---------------------------------------------------------------------------
// All detectors
// ---------------------------------------------------------------------------

/// The violations of one table, kind by kind.
pub open spec fn table_violations(
    tables: Seq<TableModel>,
    schemas: Seq<SchemaModel>,
) -> spec_fn(int) -> Seq<ViolationModel> {
    |i: int|
        foreign_violations(tables, schemas, tables[i]) + unique_violations(tables[i])
            + check_violations(tables[i]) + null_violations(tables[i]) + strict_violations(
            tables[i],
        )
}

/// All violations, table by table.
pub open spec fn all_violations(
    tables: Seq<TableModel>,
    schemas: Seq<SchemaModel>,
) -> Seq<ViolationModel> {
    gather(tables.len() as int, table_violations(tables, schemas))
}

/// Run every detector: foreign key, unique, check, not null, strict, in this
/// order for each table.
pub fn verify_constraints(merged: &MergedWork, schemas: &Vec<SchemaIR>) -> (r: Vec<Violation>)
    ensures
        r.deep_view() == all_violations(merged.deep_view(), schemas.deep_view()),
{
    let ghost ts = merged.deep_view();
    let ghost ss = schemas.deep_view();
    let ghost f = table_violations(ts, ss);
    let mut out: Vec<Violation> = Vec::new();
    let mut i: usize = 0;
    assert(out.deep_view() =~= gather(0, f));
    while i < merged.tables.len()
        invariant
            i <= merged.tables@.len(),
            ts == merged.deep_view(),
            ss == schemas.deep_view(),
            f == table_violations(ts, ss),
            out.deep_view() == gather(i as int, f),
        decreases merged.tables.len() - i,
    {
        let ghost before = out.deep_view();
        let table = &merged.tables[i];
        assert(ts[i as int] == table.deep_view());
        let cols = column_names(&table.schema.columns);
        check_foreign_keys(&mut out, &merged.tables, table, &cols, schemas);
        check_unique(&mut out, table, &cols);
        check_checks(&mut out, table, &cols);
        check_not_null(&mut out, table, &cols);
        check_strict(&mut out, table, &cols);
        assert(out.deep_view() =~= before + f(i as int));
        i = i + 1;
    }
    out
}

// ---------------------------------------------------------------------------
// Laws
// ---------------------------------------------------------------------------

/// A set without tables breaks nothing.
pub proof fn law_no_tables_no_violations(schemas: Seq<SchemaModel>)
    ensures
        all_violations(seq![], schemas) == Seq::<ViolationModel>::empty(),
{
}

/// What is gathered holds exactly what some place gave.
pub proof fn lemma_gather_contains<A>(n: int, f: spec_fn(int) -> Seq<A>, x: A)
    ensures
        gather(n, f).contains(x) <==> exists|i: int| 0 <= i < n && (#[trigger] f(i)).contains(x),
    decreases n,
{
    if n > 0 {
        lemma_gather_contains(n - 1, f, x);
        let a = gather(n - 1, f);
        let b = f(n - 1);
        if (a + b).contains(x) {
            let k = choose|k: int| 0 <= k < (a + b).len() && (a + b)[k] == x;
            if k < a.len() {
                assert(a[k] == x);
            } else {
                assert(b[k - a.len()] == x);
            }
        }
        if a.contains(x) {
            let k = choose|k: int| 0 <= k < a.len() && a[k] == x;
            assert((a + b)[k] == x);
        }
        if b.contains(x) {
            let k = choose|k: int| 0 <= k < b.len() && b[k] == x;
            assert((a + b)[a.len() + k] == x);
        }
    }
}

/// A null in a column that must have none never passes: it is reported.
pub proof fn law_null_is_reported(t: TableModel, c: int, j: int)
    requires
        0 <= c < t.schema.columns.len(),
        0 <= j < t.rows.len(),
        t.schema.columns[c].notnull,
        crate::merge::cell_at(t.rows[j], c) == Some(CellModel::Null),
    ensures
        null_violations(t).contains(
            row_violation(
                t,
                ViolationKind::NotNull,
                j,
                "NULL in NOT NULL column "@ + t.schema.columns[c].name,
            ),
        ),
{
    let v = row_violation(
        t,
        ViolationKind::NotNull,
        j,
        "NULL in NOT NULL column "@ + t.schema.columns[c].name,
    );
    let f = null_row(t, c);
    assert(f(j)[0] == v);
    assert(f(j).contains(v));
    lemma_gather_contains(t.rows.len() as int, f, v);
    assert(null_column(t)(c).contains(v));
    lemma_gather_contains(t.schema.columns.len() as int, null_column(t), v);
}

/// A check that cannot be judged never passes in silence: every row is reported.
pub proof fn law_unsupported_check_is_reported(t: TableModel, k: int, j: int)
    requires
        0 <= k < checks_of(t.schema).len(),
        0 <= j < t.rows.len(),
        crate::checks::check_of(
            checks_of(t.schema)[k],
            t.rows[j],
            names(t.schema.columns),
        ) is None,
    ensures
        check_violations(t).contains(
            row_violation(
                t,
                ViolationKind::Check,
                j,
                "check expression not supported: "@ + checks_of(t.schema)[k],
            ),
        ),
{
    let expr = checks_of(t.schema)[k];
    let v = row_violation(
        t,
        ViolationKind::Check,
        j,
        "check expression not supported: "@ + expr,
    );
    let f = check_row(t, expr);
    assert(f(j)[0] == v);
    assert(f(j).contains(v));
    lemma_gather_contains(t.rows.len() as int, f, v);
    assert(check_table(t)(k).contains(v));
    lemma_gather_contains(checks_of(t.schema).len() as int, check_table(t), v);
}

/// A row for which a check is false is reported.
pub proof fn law_failed_check_is_reported(t: TableModel, k: int, j: int)
    requires
        0 <= k < checks_of(t.schema).len(),
        0 <= j < t.rows.len(),
        crate::checks::check_of(checks_of(t.schema)[k], t.rows[j], names(t.schema.columns)) == Some(
            Some(false),
        ),
    ensures
        check_violations(t).contains(
            row_violation(
                t,
                ViolationKind::Check,
                j,
                "check constraint failed: "@ + checks_of(t.schema)[k],
            ),
        ),
{
    let expr = checks_of(t.schema)[k];
    let v = row_violation(t, ViolationKind::Check, j, "check constraint failed: "@ + expr);
    let f = check_row(t, expr);
    assert(f(j)[0] == v);
    assert(f(j).contains(v));
    lemma_gather_contains(t.rows.len() as int, f, v);
    assert(check_table(t)(k).contains(v));
    lemma_gather_contains(checks_of(t.schema).len() as int, check_table(t), v);
}

/// Of two rows with the same unique key, free of nulls, the later is reported.
pub proof fn law_duplicate_is_reported(t: TableModel, k: int, i: int, j: int)
    requires
        0 <= k < unique_sets(t.schema).len(),
        all_found(names(t.schema.columns), unique_sets(t.schema)[k]),
        0 <= i < j < t.rows.len(),
        key_of(t, i, unique_sets(t.schema)[k]) == key_of(t, j, unique_sets(t.schema)[k]),
        !key_of(t, j, unique_sets(t.schema)[k]).contains(CellModel::Null),
    ensures
        unique_violations(t).contains(
            row_violation(
                t,
                ViolationKind::Unique,
                j,
                "duplicate key on columns ("@ + crate::text::joined(unique_sets(t.schema)[k], ", "@)
                    + ")"@,
            ),
        ),
{
    let set = unique_sets(t.schema)[k];
    let v = row_violation(
        t,
        ViolationKind::Unique,
        j,
        "duplicate key on columns ("@ + crate::text::joined(set, ", "@) + ")"@,
    );
    let f = unique_row(t, set);
    assert(repeats(t, j, set));
    assert(f(j)[0] == v);
    assert(f(j).contains(v));
    lemma_gather_contains(t.rows.len() as int, f, v);
    assert(unique_set(t)(k).contains(v));
    lemma_gather_contains(unique_sets(t.schema).len() as int, unique_set(t), v);
}

/// A cell of the wrong type in a strict table is reported.
pub proof fn law_wrong_type_is_reported(t: TableModel, c: int, j: int, x: CellModel)
    requires
        t.schema.strict,
        0 <= c < t.schema.columns.len(),
        0 <= j < t.rows.len(),
        crate::merge::cell_at(t.rows[j], c) == Some(x),
        !fits_type(type_of(t.schema.columns[c].decl), x),
    ensures
        exists|detail: Seq<char>|
            strict_violations(t).contains(
                #[trigger] row_violation(t, ViolationKind::Strict, j, detail),
            ),
{
    let f = strict_row(t, c);
    let v = f(j)[0];
    assert(v == row_violation(t, ViolationKind::Strict, j, v.detail));
    assert(f(j).contains(v));
    lemma_gather_contains(t.rows.len() as int, f, v);
    assert(strict_column(t)(c).contains(v));
    lemma_gather_contains(t.schema.columns.len() as int, strict_column(t), v);
}

/// A row whose foreign key names no row of its parent table is reported; so is every
/// row with a key where the parent table is not known.
pub proof fn law_dangling_key_is_reported(
    tables: Seq<TableModel>,
    schemas: Seq<SchemaModel>,
    t: TableModel,
    k: int,
    j: int,
    key: RowModel,
)
    requires
        0 <= k < foreign_keys(t.schema).len(),
        0 <= j < t.rows.len(),
        ({
            let fk = foreign_keys(t.schema)[k];
            &&& all_found(names(t.schema.columns), fk.columns)
            &&& fk_key(t.rows[j], names(t.schema.columns), fk.columns) == Some(key)
            &&& schema_named(schemas, fk.parent_table) matches Some(parent) ==> {
                &&& all_found(names(parent.columns), fk.parent_columns)
                &&& !parent_has(
                    rows_named(tables, fk.parent_table),
                    names(parent.columns),
                    fk.parent_columns,
                    key,
                )
            }
        }),
    ensures
        foreign_violations(tables, schemas, t).contains(
            row_violation(t, ViolationKind::ForeignKey, j, fk_text(foreign_keys(t.schema)[k])),
        ),
{
    let fk = foreign_keys(t.schema)[k];
    let v = row_violation(t, ViolationKind::ForeignKey, j, fk_text(fk));
    match schema_named(schemas, fk.parent_table) {
        None => {
            let f = orphan_row(t, fk);
            assert(f(j)[0] == v);
            assert(f(j).contains(v));
            lemma_gather_contains(t.rows.len() as int, f, v);
        },
        Some(parent) => {
            let f = dangling_row(t, fk, parent, rows_named(tables, fk.parent_table));
            assert(f(j)[0] == v);
            assert(f(j).contains(v));
            lemma_gather_contains(t.rows.len() as int, f, v);
        },
    }
    assert(fk_each(tables, schemas, t)(k).contains(v));
    lemma_gather_contains(
        foreign_keys(t.schema).len() as int,
        fk_each(tables, schemas, t),
        v,
    );
}

/// What any detector finds in a table is among the violations, and nothing else is.
pub proof fn law_violations_are_what_detectors_find(
    tables: Seq<TableModel>,
    schemas: Seq<SchemaModel>,
    v: ViolationModel,
)
    ensures
        all_violations(tables, schemas).contains(v) <==> exists|i: int|
            0 <= i < tables.len() && {
                ||| foreign_violations(tables, schemas, #[trigger] tables[i]).contains(v)
                ||| unique_violations(tables[i]).contains(v)
                ||| check_violations(tables[i]).contains(v)
                ||| null_violations(tables[i]).contains(v)
                ||| strict_violations(tables[i]).contains(v)
            },
{
    let f = table_violations(tables, schemas);
    lemma_gather_contains(tables.len() as int, f, v);
    assert forall|i: int| 0 <= i < tables.len() implies ((#[trigger] f(i)).contains(v) <==> {
        ||| foreign_violations(tables, schemas, tables[i]).contains(v)
        ||| unique_violations(tables[i]).contains(v)
        ||| check_violations(tables[i]).contains(v)
        ||| null_violations(tables[i]).contains(v)
        ||| strict_violations(tables[i]).contains(v)
    }) by {
        let a = foreign_violations(tables, schemas, tables[i]);
        let b = unique_violations(tables[i]);
        let c = check_violations(tables[i]);
        let d = null_violations(tables[i]);
        let e = strict_violations(tables[i]);
        lemma_contains_either(a, b, v);
        lemma_contains_either(a + b, c, v);
        lemma_contains_either(a + b + c, d, v);
        lemma_contains_either(a + b + c + d, e, v);
    }
    if all_violations(tables, schemas).contains(v) {
        let i = choose|i: int| 0 <= i < tables.len() && (#[trigger] f(i)).contains(v);
        assert(f(i).contains(v));
        assert(tables[i] == tables[i]);
    }
    if exists|i: int|
        0 <= i < tables.len() && {
            ||| foreign_violations(tables, schemas, #[trigger] tables[i]).contains(v)
            ||| unique_violations(tables[i]).contains(v)
            ||| check_violations(tables[i]).contains(v)
            ||| null_violations(tables[i]).contains(v)
            ||| strict_violations(tables[i]).contains(v)
        } {
        let i = choose|i: int|
            0 <= i < tables.len() && {
                ||| foreign_violations(tables, schemas, #[trigger] tables[i]).contains(v)
                ||| unique_violations(tables[i]).contains(v)
                ||| check_violations(tables[i]).contains(v)
                ||| null_violations(tables[i]).contains(v)
                ||| strict_violations(tables[i]).contains(v)
            };
        assert(f(i).contains(v));
    }
}

pub proof fn lemma_contains_either<A>(a: Seq<A>, b: Seq<A>, x: A)
    ensures
        (a + b).contains(x) <==> a.contains(x) || b.contains(x),
{
    if a.contains(x) {
        let k = choose|k: int| 0 <= k < a.len() && a[k] == x;
        assert((a + b)[k] == x);
    }
    if b.contains(x) {
        let k = choose|k: int| 0 <= k < b.len() && b[k] == x;
        assert((a + b)[a.len() + k] == x);
    }
}

} // verus!
