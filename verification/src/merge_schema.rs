//! `CREATE TABLE` parsing and the schema merge matrix.
//!
//! A schema merge runs before any row merge: a schema conflict blocks the data
//! merge of its table and is resolved only by taking one side whole. A merged
//! schema has the base columns first, then those ours added, then those theirs
//! added.

use vstd::prelude::*;

use crate::sql::{capture_paren_expr, next_is, read_paren_list, tokenize, unquote_ident};
use crate::text::{
    cat2, cat3, has_text, join, same_texts, str_eq, trim, upper, Dup, Same,
};

verus! {

/// One column of a parsed `CREATE TABLE`.
#[derive(Debug, Clone, PartialEq, Eq)]
pub struct ColIR {
    pub name: String,
    /// Everything behind the column name: the type and the column constraints.
    pub decl: String,
    pub notnull: bool,
    pub dflt: Option<String>,
    /// The column's position in the declared primary key, when it is part of it.
    pub pk_pos: Option<usize>,
}

/// A parsed `CREATE TABLE`.
#[derive(Debug, Clone, PartialEq, Eq)]
pub struct SchemaIR {
    pub table: String,
    pub columns: Vec<ColIR>,
    pub pk: Vec<String>,
    /// The statement as it was given.
    pub sql: String,
    /// Table constraints, word for word.
    pub constraints: Vec<String>,
    pub strict: bool,
}

/// What a column stands for.
pub struct ColModel {
    pub name: Seq<char>,
    pub decl: Seq<char>,
    pub notnull: bool,
    pub dflt: Option<Seq<char>>,
    pub pk_pos: Option<usize>,
}

/// What a schema stands for.
pub struct SchemaModel {
    pub table: Seq<char>,
    pub columns: Seq<ColModel>,
    pub pk: Seq<Seq<char>>,
    pub sql: Seq<char>,
    pub constraints: Seq<Seq<char>>,
    pub strict: bool,
}

impl DeepView for ColIR {
    type V = ColModel;

    open spec fn deep_view(&self) -> ColModel {
        ColModel {
            name: self.name@,
            decl: self.decl@,
            notnull: self.notnull,
            dflt: self.dflt.deep_view(),
            pk_pos: self.pk_pos,
        }
    }
}

impl DeepView for SchemaIR {
    type V = SchemaModel;

    open spec fn deep_view(&self) -> SchemaModel {
        SchemaModel {
            table: self.table@,
            columns: self.columns.deep_view(),
            pk: self.pk.deep_view(),
            sql: self.sql@,
            constraints: self.constraints.deep_view(),
            strict: self.strict,
        }
    }
}

impl Dup for ColIR {
    fn dup(&self) -> (r: Self) {
        ColIR {
            name: self.name.clone(),
            decl: self.decl.clone(),
            notnull: self.notnull,
            dflt: self.dflt.dup(),
            pk_pos: self.pk_pos,
        }
    }
}

impl Dup for SchemaIR {
    fn dup(&self) -> (r: Self) {
        SchemaIR {
            table: self.table.clone(),
            columns: self.columns.dup(),
            pk: self.pk.dup(),
            sql: self.sql.clone(),
            constraints: self.constraints.dup(),
            strict: self.strict,
        }
    }
}

/// Is there a column of this name?
pub open spec fn has_name(columns: Seq<ColModel>, name: Seq<char>) -> bool {
    exists|i: int| 0 <= i < columns.len() && (#[trigger] columns[i]).name == name
}

/// Is there a column of this name?
pub fn has_column(columns: &Vec<ColIR>, name: &str) -> (r: bool)
    ensures
        r == has_name(columns.deep_view(), name@),
{
    let mut i: usize = 0;
    while i < columns.len()
        invariant
            i <= columns@.len(),
            forall|j: int| 0 <= j < i ==> (#[trigger] columns@[j]).name@ != name@,
        decreases columns.len() - i,
    {
        if str_eq(columns[i].name.as_str(), name) {
            assert(columns.deep_view()[i as int].name == name@);
            return true;
        }
        i = i + 1;
    }
    assert forall|j: int| 0 <= j < columns@.len() implies (
    #[trigger] columns.deep_view()[j]).name != name@ by {
        assert(columns.deep_view()[j].name == columns@[j].name@);
    }
    false
}

// ---------------------------------------------------------------------------
// Rebuilding a statement
// ---------------------------------------------------------------------------

/// A column definition as it stands in a statement.
pub open spec fn column_text(c: ColModel) -> Seq<char> {
    "\""@ + c.name + "\" "@ + c.decl
}

/// The definitions of columns whose name is in none of the two lists.
pub open spec fn new_column_texts(
    columns: Seq<ColModel>,
    known: Seq<ColModel>,
    more: Seq<ColModel>,
) -> Seq<Seq<char>>
    decreases columns.len(),
{
    if columns.len() == 0 {
        seq![]
    } else {
        let before = new_column_texts(columns.drop_last(), known, more);
        let c = columns.last();
        if has_name(known, c.name) || has_name(more, c.name) {
            before
        } else {
            before.push(column_text(c))
        }
    }
}

/// The statement for a schema with added columns.
pub open spec fn rebuilt(
    s: SchemaModel,
    ours_added: Seq<ColModel>,
    theirs_added: Seq<ColModel>,
) -> Seq<char> {
    let parts = new_column_texts(s.columns, seq![], seq![]) + new_column_texts(
        ours_added,
        s.columns,
        seq![],
    ) + new_column_texts(theirs_added, s.columns, ours_added);
    let sql = "CREATE TABLE \""@ + s.table + "\" ("@ + crate::text::joined(parts, ", "@) + ")"@;
    if s.strict {
        sql + " STRICT"@
    } else {
        sql
    }
}

/// Append the definitions of columns whose name is in none of the two lists.
fn push_new_columns(
    parts: &mut Vec<String>,
    columns: &Vec<ColIR>,
    known: &Vec<ColIR>,
    more: &Vec<ColIR>,
)
    ensures
        final(parts).deep_view() == old(parts).deep_view() + new_column_texts(
            columns.deep_view(),
            known.deep_view(),
            more.deep_view(),
        ),
{
    let ghost start = parts.deep_view();
    let ghost c = columns.deep_view();
    let ghost k = known.deep_view();
    let ghost m = more.deep_view();
    let mut i: usize = 0;
    assert(c.take(0) =~= seq![]);
    assert(start + new_column_texts(c.take(0), k, m) =~= start);
    while i < columns.len()
        invariant
            i <= columns@.len(),
            c == columns.deep_view(),
            k == known.deep_view(),
            m == more.deep_view(),
            parts.deep_view() == start + new_column_texts(c.take(i as int), k, m),
        decreases columns.len() - i,
    {
        let ghost before = parts.deep_view();
        assert(c.take(i + 1).drop_last() =~= c.take(i as int));
        assert(c.take(i + 1).last() == columns@[i as int].deep_view());
        let col = &columns[i];
        if !has_column(known, col.name.as_str()) && !has_column(more, col.name.as_str()) {
            let mut t = cat3("\"", col.name.as_str(), "\" ");
            t.append(col.decl.as_str());
            let ghost x = t@;
            parts.push(t);
            assert(parts.deep_view() =~= before.push(x));
            assert(before.push(x) =~= start + new_column_texts(c.take(i as int), k, m).push(x));
        }
        i = i + 1;
    }
    assert(c.take(i as int) =~= c);
}

impl SchemaIR {
    /// The statement with the base columns first, then those ours added, then
    /// those theirs added.
    pub fn rebuild(&self, ours_added: &Vec<ColIR>, theirs_added: &Vec<ColIR>) -> (r: String)
        ensures
            r@ == rebuilt(self.deep_view(), ours_added.deep_view(), theirs_added.deep_view()),
    {
        let none: Vec<ColIR> = Vec::new();
        assert(none.deep_view() =~= seq![]);
        let mut parts: Vec<String> = Vec::new();
        push_new_columns(&mut parts, &self.columns, &none, &none);
        push_new_columns(&mut parts, ours_added, &self.columns, &none);
        push_new_columns(&mut parts, theirs_added, &self.columns, ours_added);
        proof {
            let s = self.deep_view();
            assert(parts.deep_view() =~= new_column_texts(s.columns, seq![], seq![])
                + new_column_texts(ours_added.deep_view(), s.columns, seq![]) + new_column_texts(
                theirs_added.deep_view(),
                s.columns,
                ours_added.deep_view(),
            ));
        }
        let body = join(&parts, ", ");
        let mut sql = cat3("CREATE TABLE \"", self.table.as_str(), "\" (");
        sql.append(body.as_str());
        sql.append(")");
        if self.strict {
            sql.append(" STRICT");
        }
        sql
    }
}

// ---------------------------------------------------------------------------
// Comparing schemas
// ---------------------------------------------------------------------------

/// A declaration without white space around it and in upper case.
pub open spec fn folded(decl: Seq<char>) -> Seq<char> {
    crate::text::uppercase(crate::text::trimmed(decl))
}

/// Are two columns the same, the case of their declarations aside?
pub open spec fn column_same(a: ColModel, b: ColModel) -> bool {
    &&& a.name == b.name
    &&& folded(a.decl) == folded(b.decl)
    &&& a.notnull == b.notnull
    &&& a.dflt == b.dflt
    &&& a.pk_pos == b.pk_pos
}

/// Are two schemas the same: columns in order, primary key, strictness, and the
/// same constraints in whatever order?
pub open spec fn schema_same(a: SchemaModel, b: SchemaModel) -> bool {
    &&& a.strict == b.strict
    &&& a.pk == b.pk
    &&& a.constraints.to_multiset() == b.constraints.to_multiset()
    &&& a.columns.len() == b.columns.len()
    &&& forall|i: int|
        0 <= i < a.columns.len() ==> column_same(#[trigger] a.columns[i], b.columns[i])
}

/// Is a declaration made of ASCII characters, the white space around it aside?
pub open spec fn plain_decl(decl: Seq<char>) -> bool {
    crate::text::ascii_only(crate::text::trimmed(decl))
}

/// A declaration without white space around it and with its ASCII letters raised.
pub open spec fn plain_folded(decl: Seq<char>) -> Seq<char> {
    crate::text::ascii_uppercase(crate::text::trimmed(decl))
}

/// Are two columns the same, the case of ASCII letters in their declarations and
/// the white space around them aside?
pub open spec fn column_alike(a: ColModel, b: ColModel) -> bool {
    column_same(ColModel { decl: b.decl, ..a }, b) && plain_folded(a.decl) == plain_folded(b.decl)
}

/// Are all declarations of a schema made of ASCII characters?
pub open spec fn plain_schema(s: SchemaModel) -> bool {
    forall|i: int| 0 <= i < s.columns.len() ==> plain_decl((#[trigger] s.columns[i]).decl)
}

/// Are two schemas the same, the order of their constraints, the case of ASCII
/// letters in declarations and the white space around them aside?
pub open spec fn schema_alike(a: SchemaModel, b: SchemaModel) -> bool {
    &&& a.strict == b.strict
    &&& a.pk == b.pk
    &&& a.constraints.to_multiset() == b.constraints.to_multiset()
    &&& a.columns.len() == b.columns.len()
    &&& forall|i: int|
        0 <= i < a.columns.len() ==> column_alike(#[trigger] a.columns[i], b.columns[i])
}

/// Declarations compare without regard to case.
fn normalize_decl(decl: &str) -> (r: String)
    ensures
        r@ == folded(decl@),
        plain_decl(decl@) ==> r@ == plain_folded(decl@),
{
    upper(trim(decl).as_str())
}

fn same_column(a: &ColIR, b: &ColIR) -> (r: bool)
    ensures
        r == column_same(a.deep_view(), b.deep_view()),
        plain_decl(a.decl@) && plain_decl(b.decl@) ==> r == column_alike(
            a.deep_view(),
            b.deep_view(),
        ),
{
    let x = normalize_decl(a.decl.as_str());
    let y = normalize_decl(b.decl.as_str());
    a.name == b.name && x == y && a.notnull == b.notnull && a.dflt.same(&b.dflt) && a.pk_pos
        == b.pk_pos
}

/// Are two schemas the same? Where their declarations are made of ASCII characters,
/// they are the same up to the case of letters.
pub fn same_schema(a: &SchemaIR, b: &SchemaIR) -> (r: bool)
    ensures
        r == schema_same(a.deep_view(), b.deep_view()),
        plain_schema(a.deep_view()) && plain_schema(b.deep_view()) ==> r == schema_alike(
            a.deep_view(),
            b.deep_view(),
        ),
{
    let ghost plain = plain_schema(a.deep_view()) && plain_schema(b.deep_view());
    if a.strict != b.strict || !a.pk.same(&b.pk) {
        return false;
    }
    if !same_texts(&a.constraints, &b.constraints) {
        return false;
    }
    if a.columns.len() != b.columns.len() {
        return false;
    }
    let mut i: usize = 0;
    while i < a.columns.len()
        invariant
            i <= a.columns@.len(),
            a.columns@.len() == b.columns@.len(),
            forall|j: int|
                0 <= j < i ==> column_same(
                    #[trigger] a.columns.deep_view()[j],
                    b.columns.deep_view()[j],
                ),
            plain == (plain_schema(a.deep_view()) && plain_schema(b.deep_view())),
            plain ==> forall|j: int|
                0 <= j < i ==> column_alike(
                    #[trigger] a.columns.deep_view()[j],
                    b.columns.deep_view()[j],
                ),
        decreases a.columns.len() - i,
    {
        assert(a.columns.deep_view()[i as int] == a.columns@[i as int].deep_view());
        assert(b.columns.deep_view()[i as int] == b.columns@[i as int].deep_view());
        assert(plain ==> plain_decl(a.deep_view().columns[i as int].decl) && plain_decl(
            b.deep_view().columns[i as int].decl,
        ));
        if !same_column(&a.columns[i], &b.columns[i]) {
            return false;
        }
        i = i + 1;
    }
    true
}

/// How one side's schema moved off the base.
#[derive(Debug, Clone, Copy, PartialEq, Eq, Structural)]
pub enum SideChange {
    Unchanged,
    Compatible,
    Breaking,
}

/// Nothing changed; only nullable columns outside the key and constraints were
/// added; or something else happened.
pub open spec fn change_of(side: SchemaModel, base: SchemaModel) -> SideChange {
    if schema_same(side, base) {
        SideChange::Unchanged
    } else if side.pk == base.pk && side.strict == base.strict && (side.constraints.len()
        > base.constraints.len() || (side.constraints.len() == base.constraints.len()
        && side.constraints.to_multiset() == base.constraints.to_multiset())) && side.columns.len()
        >= base.columns.len() && (forall|i: int|
        0 <= i < base.columns.len() ==> column_same(#[trigger] base.columns[i], side.columns[i]))
        && (forall|i: int|
        base.columns.len() <= i < side.columns.len() ==> !(#[trigger] side.columns[i]).notnull
            && side.columns[i].pk_pos is None) {
        SideChange::Compatible
    } else {
        SideChange::Breaking
    }
}

/// Classify one side's change.
fn classify(side: &SchemaIR, base: &SchemaIR) -> (r: SideChange)
    ensures
        r == change_of(side.deep_view(), base.deep_view()),
{
    if same_schema(side, base) {
        return SideChange::Unchanged;
    }
    if !side.pk.same(&base.pk) {
        return SideChange::Breaking;
    }
    if side.strict != base.strict {
        return SideChange::Breaking;
    }
    if side.constraints.len() < base.constraints.len() {
        return SideChange::Breaking;
    }
    if side.constraints.len() == base.constraints.len() {
        if !same_texts(&side.constraints, &base.constraints) {
            return SideChange::Breaking;
        }
    }
    if side.columns.len() < base.columns.len() {
        return SideChange::Breaking;
    }
    let mut i: usize = 0;
    while i < base.columns.len()
        invariant
            i <= base.columns@.len() <= side.columns@.len(),
            forall|j: int|
                0 <= j < i ==> column_same(
                    #[trigger] base.columns.deep_view()[j],
                    side.columns.deep_view()[j],
                ),
        decreases base.columns.len() - i,
    {
        assert(side.columns.deep_view()[i as int] == side.columns@[i as int].deep_view());
        assert(base.columns.deep_view()[i as int] == base.columns@[i as int].deep_view());
        if !same_column(&base.columns[i], &side.columns[i]) {
            assert(!column_same(base.deep_view().columns[i as int], side.deep_view().columns[i as int]));
            return SideChange::Breaking;
        }
        i = i + 1;
    }
    while i < side.columns.len()
        invariant
            base.columns@.len() <= i <= side.columns@.len(),
            forall|j: int|
                base.columns@.len() <= j < i ==> !(#[trigger] side.columns.deep_view()[j]).notnull
                    && side.columns.deep_view()[j].pk_pos is None,
        decreases side.columns.len() - i,
    {
        assert(side.columns.deep_view()[i as int] == side.columns@[i as int].deep_view());
        if side.columns[i].notnull || side.columns[i].pk_pos.is_some() {
            assert(side.deep_view().columns[i as int].notnull
                || side.deep_view().columns[i as int].pk_pos is Some);
            return SideChange::Breaking;
        }
        i = i + 1;
    }
    SideChange::Compatible
}

// ---------------------------------------------------------------------------
// Merging schemas
// ---------------------------------------------------------------------------

/// Outcome of a schema merge, over the types of a schema and of a text.
#[derive(Debug, Clone, PartialEq, Eq)]
pub enum SchemaDecision<I = SchemaIR, S = String> {
    Clean(I),
    Conflict(S),
}

/// What a decision stands for.
pub type DecisionModel = SchemaDecision<SchemaModel, Seq<char>>;

impl DeepView for SchemaDecision {
    type V = DecisionModel;

    open spec fn deep_view(&self) -> DecisionModel {
        match *self {
            SchemaDecision::Clean(s) => SchemaDecision::Clean(s.deep_view()),
            SchemaDecision::Conflict(d) => SchemaDecision::Conflict(d@),
        }
    }
}

/// The columns of a side whose name the base does not have.
pub open spec fn added_to(base: SchemaModel, side: SchemaModel) -> Seq<ColModel> {
    side.columns.filter(|c: ColModel| !has_name(base.columns, c.name))
}

/// The first column of a name.
pub open spec fn column_named(columns: Seq<ColModel>, name: Seq<char>) -> Option<ColModel>
    decreases columns.len(),
{
    if columns.len() == 0 {
        None
    } else if columns[0].name == name {
        Some(columns[0])
    } else {
        column_named(columns.drop_first(), name)
    }
}

/// The first column that both sides added with different declarations.
pub open spec fn decl_clash(ours: Seq<ColModel>, theirs: Seq<ColModel>) -> Option<Seq<char>>
    decreases ours.len(),
{
    if ours.len() == 0 {
        None
    } else {
        match column_named(theirs, ours[0].name) {
            Some(t) => if t.decl != ours[0].decl {
                Some(ours[0].name)
            } else {
                decl_clash(ours.drop_first(), theirs)
            },
            None => decl_clash(ours.drop_first(), theirs),
        }
    }
}

/// The constraints of a side that the base does not have.
pub open spec fn new_constraints(base: Seq<Seq<char>>, side: Seq<Seq<char>>) -> Seq<Seq<char>> {
    side.filter(|c: Seq<char>| !base.contains(c))
}

/// Both sides added constraints, and not the same ones.
pub open spec fn constraints_clash(ours: Seq<Seq<char>>, theirs: Seq<Seq<char>>) -> bool {
    ours.len() > 0 && theirs.len() > 0 && ours.to_set() != theirs.to_set()
}

/// Add the constraints that are not there yet.
pub open spec fn with_missing(cs: Seq<Seq<char>>, more: Seq<Seq<char>>) -> Seq<Seq<char>>
    decreases more.len(),
{
    if more.len() == 0 {
        cs
    } else {
        let before = with_missing(cs, more.drop_last());
        if before.contains(more.last()) {
            before
        } else {
            before.push(more.last())
        }
    }
}

/// Add the columns whose name is not there yet.
pub open spec fn with_columns(columns: Seq<ColModel>, more: Seq<ColModel>) -> Seq<ColModel>
    decreases more.len(),
{
    if more.len() == 0 {
        columns
    } else {
        let before = with_columns(columns, more.drop_last());
        if has_name(before, more.last().name) {
            before
        } else {
            before.push(more.last())
        }
    }
}

/// The union of two sides that only added to the base.
pub open spec fn union_of(
    base: SchemaModel,
    ours: SchemaModel,
    theirs: SchemaModel,
) -> DecisionModel {
    let oa = added_to(base, ours);
    let ta = added_to(base, theirs);
    match decl_clash(oa, ta) {
        Some(name) => SchemaDecision::Conflict(
            "column '"@ + name + "' added with different declarations on both sides"@,
        ),
        None => {
            let on = new_constraints(base.constraints, ours.constraints);
            let tn = new_constraints(base.constraints, theirs.constraints);
            if constraints_clash(on, tn) {
                SchemaDecision::Conflict("conflicting constraint additions on both sides"@)
            } else {
                SchemaDecision::Clean(
                    SchemaModel {
                        columns: with_columns(with_columns(base.columns, oa), ta),
                        constraints: with_missing(with_missing(base.constraints, on), tn),
                        ..base
                    },
                )
            }
        },
    }
}

/// Why two changes do not go together.
pub open spec fn refusal(o: SideChange, t: SideChange) -> Seq<char> {
    match (o, t) {
        (SideChange::Breaking, SideChange::Breaking) => "breaking schema change on both sides"@,
        (SideChange::Compatible, SideChange::Breaking) => "breaking schema change on theirs"@,
        (SideChange::Breaking, SideChange::Compatible) => "breaking schema change on ours"@,
        _ => "incompatible schema changes"@,
    }
}

/// The merge of two schemas that both exist, from a base that exists.
pub open spec fn merge_moved(
    base: SchemaModel,
    ours: SchemaModel,
    theirs: SchemaModel,
) -> DecisionModel {
    if ours.pk != base.pk && theirs.pk != base.pk && ours.pk != theirs.pk {
        SchemaDecision::Conflict("primary key changed on both sides"@)
    } else {
        let o = change_of(ours, base);
        let t = change_of(theirs, base);
        match (o, t) {
            (SideChange::Unchanged, SideChange::Unchanged) => SchemaDecision::Clean(base),
            (SideChange::Unchanged, _) => SchemaDecision::Clean(theirs),
            (_, SideChange::Unchanged) => SchemaDecision::Clean(ours),
            (SideChange::Compatible, SideChange::Compatible) => union_of(base, ours, theirs),
            _ => if schema_same(ours, theirs) {
                SchemaDecision::Clean(ours)
            } else {
                SchemaDecision::Conflict(refusal(o, t))
            },
        }
    }
}

/// The merge of one table's schemas; none means that the table is not there.
pub open spec fn schema_merge(
    base: Option<SchemaModel>,
    ours: Option<SchemaModel>,
    theirs: Option<SchemaModel>,
) -> DecisionModel {
    match (base, ours, theirs) {
        (None, None, Some(t)) => SchemaDecision::Clean(t),
        (None, Some(o), None) => SchemaDecision::Clean(o),
        (None, None, None) => SchemaDecision::Conflict("table deleted on both sides"@),
        (Some(b), None, Some(t)) => if schema_same(t, b) {
            SchemaDecision::Conflict("table deleted on ours, unchanged on theirs"@)
        } else {
            SchemaDecision::Conflict("table deleted on ours, modified on theirs"@)
        },
        (Some(_), None, None) => SchemaDecision::Conflict("table deleted on ours, absent on theirs"@),
        (Some(b), Some(o), None) => if schema_same(o, b) {
            SchemaDecision::Conflict("table deleted on theirs, unchanged on ours"@)
        } else {
            SchemaDecision::Conflict("table deleted on theirs, modified on ours"@)
        },
        (None, Some(o), Some(t)) => if schema_same(o, t) {
            SchemaDecision::Clean(o)
        } else {
            SchemaDecision::Conflict("table added differently on both sides"@)
        },
        (Some(b), Some(o), Some(t)) => merge_moved(b, o, t),
    }
}

fn refuse(detail: &str) -> (r: SchemaDecision)
    ensures
        r.deep_view() == DecisionModel::Conflict(detail@),
{
    SchemaDecision::Conflict(detail.to_owned())
}

/// Merge one table's schemas; `None` means that the table is not there.
pub fn merge_schema(
    base: Option<&SchemaIR>,
    ours: Option<&SchemaIR>,
    theirs: Option<&SchemaIR>,
) -> (r: SchemaDecision)
    ensures
        r.deep_view() == schema_merge(base.deep_view(), ours.deep_view(), theirs.deep_view()),
{
    let ours = match ours {
        Some(o) => o,
        None => {
            return match (base, theirs) {
                (None, Some(t)) => SchemaDecision::Clean(t.dup()),
                (None, None) => refuse("table deleted on both sides"),
                (Some(b), Some(t)) => if same_schema(t, b) {
                    refuse("table deleted on ours, unchanged on theirs")
                } else {
                    refuse("table deleted on ours, modified on theirs")
                },
                (Some(_), None) => refuse("table deleted on ours, absent on theirs"),
            };
        },
    };
    let theirs = match theirs {
        Some(t) => t,
        None => {
            return match base {
                None => SchemaDecision::Clean(ours.dup()),
                Some(b) => if same_schema(ours, b) {
                    refuse("table deleted on theirs, unchanged on ours")
                } else {
                    refuse("table deleted on theirs, modified on ours")
                },
            };
        },
    };
    let base = match base {
        Some(b) => b,
        None => {
            if same_schema(ours, theirs) {
                return SchemaDecision::Clean(ours.dup());
            }
            return refuse("table added differently on both sides");
        },
    };
    if pk_changed(ours, base) && pk_changed(theirs, base) && pk_changed(ours, theirs) {
        return refuse("primary key changed on both sides");
    }
    let o_change = classify(ours, base);
    let t_change = classify(theirs, base);
    match (o_change, t_change) {
        (SideChange::Unchanged, SideChange::Unchanged) => SchemaDecision::Clean(base.dup()),
        (SideChange::Unchanged, _) => SchemaDecision::Clean(theirs.dup()),
        (_, SideChange::Unchanged) => SchemaDecision::Clean(ours.dup()),
        (SideChange::Compatible, SideChange::Compatible) => union_columns(base, ours, theirs),
        _ => {
            if same_schema(ours, theirs) {
                SchemaDecision::Clean(ours.dup())
            } else {
                conflict_detail(o_change, t_change)
            }
        },
    }
}

/// Did one side move the primary key?
fn pk_changed(side: &SchemaIR, base: &SchemaIR) -> (r: bool)
    ensures
        r == (side.deep_view().pk != base.deep_view().pk),
{
    !side.pk.same(&base.pk)
}

/// The refusal of two changes that do not go together.
fn conflict_detail(o: SideChange, t: SideChange) -> (r: SchemaDecision)
    ensures
        r.deep_view() == DecisionModel::Conflict(refusal(o, t)),
{
    match (o, t) {
        (SideChange::Breaking, SideChange::Breaking) => refuse(
            "breaking schema change on both sides",
        ),
        (SideChange::Compatible, SideChange::Breaking) => refuse("breaking schema change on theirs"),
        (SideChange::Breaking, SideChange::Compatible) => refuse("breaking schema change on ours"),
        _ => refuse("incompatible schema changes"),
    }
}

/// The columns of a side whose name the base does not have.
pub fn added_columns(base: &SchemaIR, side: &SchemaIR) -> (r: Vec<ColIR>)
    ensures
        r.deep_view() == added_to(base.deep_view(), side.deep_view()),
{
    let ghost c = side.columns.deep_view();
    let ghost p = |c: ColModel| !has_name(base.deep_view().columns, c.name);
    let mut out: Vec<ColIR> = Vec::new();
    let mut i: usize = 0;
    proof {
        reveal(Seq::filter);
        assert(c.take(0).filter(p) =~= seq![]);
        assert(out.deep_view() =~= seq![]);
    }
    while i < side.columns.len()
        invariant
            i <= side.columns@.len(),
            c == side.columns.deep_view(),
            p == (|c: ColModel| !has_name(base.deep_view().columns, c.name)),
            out.deep_view() == c.take(i as int).filter(p),
        decreases side.columns.len() - i,
    {
        proof {
            reveal(Seq::filter);
            assert(c.take(i + 1).drop_last() =~= c.take(i as int));
            assert(c.take(i + 1).last() == side.columns@[i as int].deep_view());
        }
        let ghost before = out.deep_view();
        if !has_column(&base.columns, side.columns[i].name.as_str()) {
            out.push(side.columns[i].dup());
            assert(out.deep_view() =~= before.push(c[i as int]));
        }
        i = i + 1;
    }
    assert(c.take(i as int) =~= c);
    out
}

/// The declaration of the first column of a name.
fn decl_of(columns: &Vec<ColIR>, name: &str) -> (r: Option<String>)
    ensures
        match column_named(columns.deep_view(), name@) {
            Some(c) => r matches Some(d) && d@ == c.decl,
            None => r is None,
        },
{
    let ghost c = columns.deep_view();
    let mut i: usize = 0;
    assert(c.skip(0) =~= c);
    while i < columns.len()
        invariant
            i <= columns@.len(),
            c == columns.deep_view(),
            column_named(c.skip(i as int), name@) == column_named(c, name@),
        decreases columns.len() - i,
    {
        assert(c.skip(i as int)[0] == columns@[i as int].deep_view());
        assert(c.skip(i as int).drop_first() =~= c.skip(i + 1));
        if str_eq(columns[i].name.as_str(), name) {
            return Some(columns[i].decl.clone());
        }
        i = i + 1;
    }
    assert(c.skip(i as int) =~= seq![]);
    None
}

/// The first column that both sides added with different declarations.
fn find_decl_clash(ours: &Vec<ColIR>, theirs: &Vec<ColIR>) -> (r: Option<String>)
    ensures
        match decl_clash(ours.deep_view(), theirs.deep_view()) {
            Some(name) => r matches Some(n) && n@ == name,
            None => r is None,
        },
{
    let ghost o = ours.deep_view();
    let ghost t = theirs.deep_view();
    let mut i: usize = 0;
    assert(o.skip(0) =~= o);
    while i < ours.len()
        invariant
            i <= ours@.len(),
            o == ours.deep_view(),
            t == theirs.deep_view(),
            decl_clash(o.skip(i as int), t) == decl_clash(o, t),
        decreases ours.len() - i,
    {
        assert(o.skip(i as int)[0] == ours@[i as int].deep_view());
        assert(o.skip(i as int).drop_first() =~= o.skip(i + 1));
        if let Some(d) = decl_of(theirs, ours[i].name.as_str()) {
            if !d.same(&ours[i].decl) {
                return Some(ours[i].name.clone());
            }
        }
        i = i + 1;
    }
    assert(o.skip(i as int) =~= seq![]);
    None
}

/// The constraints of a side that the base does not have.
fn find_new_constraints(base: &Vec<String>, side: &Vec<String>) -> (r: Vec<String>)
    ensures
        r.deep_view() == new_constraints(base.deep_view(), side.deep_view()),
{
    let ghost c = side.deep_view();
    let ghost p = |c: Seq<char>| !base.deep_view().contains(c);
    let mut out: Vec<String> = Vec::new();
    let mut i: usize = 0;
    proof {
        reveal(Seq::filter);
        assert(c.take(0).filter(p) =~= seq![]);
        assert(out.deep_view() =~= seq![]);
    }
    while i < side.len()
        invariant
            i <= side@.len(),
            c == side.deep_view(),
            p == (|c: Seq<char>| !base.deep_view().contains(c)),
            out.deep_view() == c.take(i as int).filter(p),
        decreases side.len() - i,
    {
        proof {
            reveal(Seq::filter);
            assert(c.take(i + 1).drop_last() =~= c.take(i as int));
            assert(c.take(i + 1).last() == side@[i as int]@);
        }
        let ghost before = out.deep_view();
        if !has_text(base, side[i].as_str()) {
            out.push(side[i].clone());
            assert(out.deep_view() =~= before.push(c[i as int]));
        }
        i = i + 1;
    }
    assert(c.take(i as int) =~= c);
    out
}

/// Add the columns whose name is not there yet.
fn add_columns(columns: &mut Vec<ColIR>, more: &Vec<ColIR>)
    ensures
        final(columns).deep_view() == with_columns(old(columns).deep_view(), more.deep_view()),
{
    let ghost start = columns.deep_view();
    let ghost m = more.deep_view();
    let mut i: usize = 0;
    assert(m.take(0) =~= seq![]);
    while i < more.len()
        invariant
            i <= more@.len(),
            m == more.deep_view(),
            columns.deep_view() == with_columns(start, m.take(i as int)),
        decreases more.len() - i,
    {
        let ghost before = columns.deep_view();
        assert(m.take(i + 1).drop_last() =~= m.take(i as int));
        assert(m.take(i + 1).last() == more@[i as int].deep_view());
        if !has_column(columns, more[i].name.as_str()) {
            columns.push(more[i].dup());
            assert(columns.deep_view() =~= before.push(m[i as int]));
        }
        i = i + 1;
    }
    assert(m.take(i as int) =~= m);
}

/// The base columns followed by those both sides added, each name once.
fn merged_columns(base: &SchemaIR, ours_added: &Vec<ColIR>, theirs_added: &Vec<ColIR>) -> (r: Vec<
    ColIR,
>)
    ensures
        r.deep_view() == with_columns(
            with_columns(base.deep_view().columns, ours_added.deep_view()),
            theirs_added.deep_view(),
        ),
{
    let mut columns = base.columns.dup();
    add_columns(&mut columns, ours_added);
    add_columns(&mut columns, theirs_added);
    columns
}

/// Are all these texts in the other list?
fn all_among(a: &Vec<String>, b: &Vec<String>) -> (r: bool)
    ensures
        r == a.deep_view().to_set().subset_of(b.deep_view().to_set()),
{
    let ghost x = a.deep_view();
    let ghost y = b.deep_view();
    let mut i: usize = 0;
    while i < a.len()
        invariant
            i <= a@.len(),
            x == a.deep_view(),
            y == b.deep_view(),
            forall|j: int| 0 <= j < i ==> y.contains(#[trigger] x[j]),
        decreases a.len() - i,
    {
        assert(x[i as int] == a@[i as int]@);
        if !has_text(b, a[i].as_str()) {
            assert(x.to_set().contains(x[i as int]));
            assert(!y.to_set().contains(x[i as int]));
            return false;
        }
        i = i + 1;
    }
    assert forall|t: Seq<char>| x.to_set().contains(t) implies y.to_set().contains(t) by {
        let j = choose|j: int| 0 <= j < x.len() && x[j] == t;
        assert(y.contains(x[j]));
    }
    true
}

/// Did both sides add constraints, and not the same ones?
fn differing_additions(ours: &Vec<String>, theirs: &Vec<String>) -> (r: bool)
    ensures
        r == constraints_clash(ours.deep_view(), theirs.deep_view()),
{
    let same = all_among(ours, theirs) && all_among(theirs, ours);
    proof {
        let x = ours.deep_view().to_set();
        let y = theirs.deep_view().to_set();
        if x.subset_of(y) && y.subset_of(x) {
            assert(x =~= y);
        }
    }
    ours.len() > 0 && theirs.len() > 0 && !same
}

/// Add the constraints that are not there yet.
fn add_constraints(cs: &mut Vec<String>, more: &Vec<String>)
    ensures
        final(cs).deep_view() == with_missing(old(cs).deep_view(), more.deep_view()),
{
    let ghost start = cs.deep_view();
    let ghost m = more.deep_view();
    let mut i: usize = 0;
    assert(m.take(0) =~= seq![]);
    while i < more.len()
        invariant
            i <= more@.len(),
            m == more.deep_view(),
            cs.deep_view() == with_missing(start, m.take(i as int)),
        decreases more.len() - i,
    {
        let ghost before = cs.deep_view();
        assert(m.take(i + 1).drop_last() =~= m.take(i as int));
        assert(m.take(i + 1).last() == more@[i as int]@);
        if !has_text(cs, more[i].as_str()) {
            cs.push(more[i].clone());
            assert(cs.deep_view() =~= before.push(m[i as int]));
        }
        i = i + 1;
    }
    assert(m.take(i as int) =~= m);
}

/// The union of two sides that only added to the base.
fn union_columns(base: &SchemaIR, ours: &SchemaIR, theirs: &SchemaIR) -> (r: SchemaDecision)
    ensures
        r.deep_view() == union_of(base.deep_view(), ours.deep_view(), theirs.deep_view()),
{
    let ours_added = added_columns(base, ours);
    let theirs_added = added_columns(base, theirs);
    if let Some(name) = find_decl_clash(&ours_added, &theirs_added) {
        return SchemaDecision::Conflict(
            cat3("column '", name.as_str(), "' added with different declarations on both sides"),
        );
    }
    let ours_new = find_new_constraints(&base.constraints, &ours.constraints);
    let theirs_new = find_new_constraints(&base.constraints, &theirs.constraints);
    if differing_additions(&ours_new, &theirs_new) {
        return refuse("conflicting constraint additions on both sides");
    }
    let mut constraints = base.constraints.dup();
    add_constraints(&mut constraints, &ours_new);
    add_constraints(&mut constraints, &theirs_new);
    SchemaDecision::Clean(
        SchemaIR {
            table: base.table.clone(),
            columns: merged_columns(base, &ours_added, &theirs_added),
            pk: base.pk.dup(),
            sql: base.sql.clone(),
            constraints,
            strict: base.strict,
        },
    )
}

// ---------------------------------------------------------------------------
// Laws of the merge
// ---------------------------------------------------------------------------

/// A schema is the same as itself, and sameness does not depend on the order of
/// the two.
pub proof fn law_schema_same(a: SchemaModel, b: SchemaModel)
    ensures
        schema_same(a, a),
        schema_same(a, b) == schema_same(b, a),
{
    if schema_same(a, b) {
        assert forall|i: int| 0 <= i < b.columns.len() implies column_same(
            #[trigger] b.columns[i],
            a.columns[i],
        ) by {
            assert(column_same(a.columns[i], b.columns[i]));
        }
    }
    if schema_same(b, a) {
        assert forall|i: int| 0 <= i < a.columns.len() implies column_same(
            #[trigger] a.columns[i],
            b.columns[i],
        ) by {
            assert(column_same(b.columns[i], a.columns[i]));
        }
    }
}

/// Sameness carries on from schema to schema.
pub proof fn law_schema_same_transitive(a: SchemaModel, b: SchemaModel, c: SchemaModel)
    requires
        schema_same(a, b),
        schema_same(b, c),
    ensures
        schema_same(a, c),
{
    assert forall|i: int| 0 <= i < a.columns.len() implies column_same(
        #[trigger] a.columns[i],
        c.columns[i],
    ) by {
        assert(column_same(a.columns[i], b.columns[i]));
        assert(column_same(b.columns[i], c.columns[i]));
    }
}

/// The name of the table, the text of the statement, the order of the constraints and
/// the case of declarations and the white space around them make no difference.
pub proof fn law_schema_same_ignores(
    a: SchemaModel,
    table: Seq<char>,
    sql: Seq<char>,
    constraints: Seq<Seq<char>>,
    decls: Seq<Seq<char>>,
)
    requires
        constraints.to_multiset() == a.constraints.to_multiset(),
        decls.len() == a.columns.len(),
        forall|i: int|
            0 <= i < decls.len() ==> folded(#[trigger] decls[i]) == folded(a.columns[i].decl),
    ensures
        schema_same(
            a,
            SchemaModel {
                table,
                sql,
                constraints,
                columns: Seq::new(
                    a.columns.len(),
                    |i: int| ColModel { decl: decls[i], ..a.columns[i] },
                ),
                ..a
            },
        ),
{
}

/// White space around a declaration folds away.
pub proof fn law_outer_blanks_fold_away(left: Seq<char>, decl: Seq<char>, right: Seq<char>)
    requires
        forall|i: int| 0 <= i < left.len() ==> crate::text::white_space(#[trigger] left[i]),
        forall|i: int| 0 <= i < right.len() ==> crate::text::white_space(#[trigger] right[i]),
    ensures
        folded(left + decl + right) == folded(decl),
{
    crate::text::lemma_trimmed_blanks(left, decl, right);
}

/// A side that did not move gives way to the other: the merge takes the moved
/// side as it is.
pub proof fn law_unmoved_schema_gives_way(base: SchemaModel, side: SchemaModel)
    requires
        !schema_same(side, base),
    ensures
        schema_merge(Some(base), Some(side), Some(base)) == DecisionModel::Clean(side),
        schema_merge(Some(base), Some(base), Some(side)) == DecisionModel::Clean(side),
{
    law_schema_same(base, base);
}

/// Where both sides added constraints and not the same ones, the union is
/// refused, whichever side is ours.
pub proof fn law_differing_constraints_conflict(
    base: SchemaModel,
    ours: SchemaModel,
    theirs: SchemaModel,
)
    requires
        constraints_clash(
            new_constraints(base.constraints, ours.constraints),
            new_constraints(base.constraints, theirs.constraints),
        ),
    ensures
        union_of(base, ours, theirs) is Conflict,
        union_of(base, theirs, ours) is Conflict,
{
}

/// A parsed column carries its position in the declared primary key, and none
/// where it is not part of it.
pub proof fn law_key_position(sql: Seq<char>, i: int)
    requires
        schema_of(sql) is Some,
        schema_of(sql)->0.pk.len() <= usize::MAX,
        0 <= i < schema_of(sql)->0.columns.len(),
    ensures
        ({
            let s = schema_of(sql)->0;
            let c = s.columns[i];
            match c.pk_pos {
                Some(k) => k < s.pk.len() && s.pk[k as int] == c.name && !s.pk.take(
                    k as int,
                ).contains(c.name),
                None => !s.pk.contains(c.name),
            }
        }),
{
    let s = schema_of(sql)->0;
    crate::merge::lemma_name_from(s.pk, s.columns[i].name, 0);
}

/// Both sides adding columns keeps every base column in its place.
pub proof fn law_union_keeps_base(base: Seq<ColModel>, more: Seq<ColModel>)
    ensures
        with_columns(base, more).len() >= base.len(),
        with_columns(base, more).take(base.len() as int) == base,
    decreases more.len(),
{
    if more.len() > 0 {
        law_union_keeps_base(base, more.drop_last());
        let before = with_columns(base, more.drop_last());
        assert(with_columns(base, more).take(base.len() as int) =~= before.take(base.len() as int));
    } else {
        assert(base.take(base.len() as int) =~= base);
    }
}

/// Every column that a side added is in the union.
pub proof fn law_union_has_added(base: Seq<ColModel>, more: Seq<ColModel>, i: int)
    requires
        0 <= i < more.len(),
    ensures
        has_name(with_columns(base, more), more[i].name),
    decreases more.len(),
{
    let before = with_columns(base, more.drop_last());
    let after = with_columns(base, more);
    if i == more.len() - 1 {
        if !has_name(before, more.last().name) {
            assert(after[before.len() as int].name == more[i].name);
        }
    } else {
        law_union_has_added(base, more.drop_last(), i);
        assert(more.drop_last()[i] == more[i]);
        let k = choose|k: int| 0 <= k < before.len() && (#[trigger] before[k]).name == more[i].name;
        assert(after[k].name == more[i].name);
    }
}

/// Do two schemas declare the same: columns in order with their names, declarations (case
/// and the white space around them aside), nullability, defaults and places in the key, the
/// same key, the same strictness, and each constraint as often?
pub open spec fn declares_alike(a: SchemaModel, b: SchemaModel) -> bool {
    &&& a.strict == b.strict
    &&& a.pk == b.pk
    &&& a.constraints.len() == b.constraints.len()
    &&& forall|k: Seq<char>| #[trigger]
        a.constraints.to_multiset().count(k) == b.constraints.to_multiset().count(k)
    &&& a.columns.len() == b.columns.len()
    &&& forall|i: int|
        0 <= i < a.columns.len() ==> {
            &&& (#[trigger] a.columns[i]).name == b.columns[i].name
            &&& crate::text::uppercase(crate::text::trimmed(a.columns[i].decl))
                == crate::text::uppercase(crate::text::trimmed(b.columns[i].decl))
            &&& a.columns[i].notnull == b.columns[i].notnull
            &&& a.columns[i].dflt == b.columns[i].dflt
            &&& a.columns[i].pk_pos == b.columns[i].pk_pos
        }
}

/// Two schemas compare as the same exactly where they declare the same.
pub proof fn law_same_schemas_declare_alike(a: SchemaModel, b: SchemaModel)
    ensures
        schema_same(a, b) <==> declares_alike(a, b),
{
    a.constraints.to_multiset_ensures();
    b.constraints.to_multiset_ensures();
    if schema_same(a, b) {
        assert forall|i: int| 0 <= i < a.columns.len() implies {
            &&& (#[trigger] a.columns[i]).name == b.columns[i].name
            &&& crate::text::uppercase(crate::text::trimmed(a.columns[i].decl))
                == crate::text::uppercase(crate::text::trimmed(b.columns[i].decl))
            &&& a.columns[i].notnull == b.columns[i].notnull
            &&& a.columns[i].dflt == b.columns[i].dflt
            &&& a.columns[i].pk_pos == b.columns[i].pk_pos
        } by {
            assert(column_same(a.columns[i], b.columns[i]));
        }
    }
    if declares_alike(a, b) {
        assert(a.constraints.to_multiset() =~= b.constraints.to_multiset());
        assert forall|i: int| 0 <= i < a.columns.len() implies column_same(
            #[trigger] a.columns[i],
            b.columns[i],
        ) by {
            assert(a.columns[i].name == b.columns[i].name);
        }
    }
}

/// Where one side left the schema as it was, the merge has the schema of the other,
/// whichever of the two comes first; a schema that both added alike is taken.
pub proof fn law_merge_takes_the_moved_schema(b: SchemaModel, o: SchemaModel, t: SchemaModel)
    ensures
        declares_alike(o, b) ==> (schema_merge(Some(b), Some(o), Some(t)) matches
            SchemaDecision::Clean(ir) && declares_alike(ir, t)),
        declares_alike(o, b) ==> (schema_merge(Some(b), Some(t), Some(o)) matches
            SchemaDecision::Clean(ir) && declares_alike(ir, t)),
        declares_alike(o, t) ==> (schema_merge(None, Some(o), Some(t)) matches
            SchemaDecision::Clean(ir) && declares_alike(ir, o)),
        !declares_alike(o, t) ==> schema_merge(None, Some(o), Some(t)) is Conflict,
        schema_merge(None, None, Some(t)) == SchemaDecision::<SchemaModel, Seq<char>>::Clean(t),
        schema_merge(None, Some(o), None) == SchemaDecision::<SchemaModel, Seq<char>>::Clean(o),
        schema_merge(Some(b), None, Some(t)) is Conflict,
        schema_merge(Some(b), Some(o), None) is Conflict,
{
    law_same_schemas_declare_alike(o, b);
    law_same_schemas_declare_alike(o, t);
    law_same_schemas_declare_alike(t, b);
    law_same_schemas_declare_alike(b, t);
    law_same_schemas_declare_alike(t, t);
    law_same_schemas_declare_alike(o, o);
    law_schema_same(o, b);
    law_schema_same(t, b);
    law_schema_same(o, t);
}

proof fn lemma_filter_has<A>(s: Seq<A>, p: spec_fn(A) -> bool, x: A)
    ensures
        s.filter(p).contains(x) <==> s.contains(x) && p(x),
{
    crate::creds::lemma_filter_distinct(s, p);
}

/// What is added where it is missing is there, and nothing else comes.
proof fn lemma_with_missing(cs: Seq<Seq<char>>, more: Seq<Seq<char>>, k: Seq<char>)
    ensures
        with_missing(cs, more).contains(k) <==> cs.contains(k) || more.contains(k),
        with_missing(cs, more).len() >= cs.len(),
        with_missing(cs, more).take(cs.len() as int) == cs,
    decreases more.len(),
{
    if more.len() == 0 {
        assert(cs.take(cs.len() as int) =~= cs);
    } else {
        let d = more.drop_last();
        lemma_with_missing(cs, d, k);
        let before = with_missing(cs, d);
        let after = with_missing(cs, more);
        assert(after.take(cs.len() as int) =~= before.take(cs.len() as int));
        assert(more.contains(k) <==> d.contains(k) || more.last() == k) by {
            if more.contains(k) {
                let i = choose|i: int| 0 <= i < more.len() && more[i] == k;
                if i < d.len() {
                    assert(d[i] == k);
                }
            }
            if d.contains(k) {
                let i = choose|i: int| 0 <= i < d.len() && d[i] == k;
                assert(more[i] == k);
            }
            if more.last() == k {
                assert(more[more.len() - 1] == k);
            }
        }
        if !before.contains(more.last()) {
            assert(after == before.push(more.last()));
            if before.contains(k) {
                let i = choose|i: int| 0 <= i < before.len() && before[i] == k;
                assert(after[i] == k);
            }
            assert(after[before.len() as int] == more.last());
            if after.contains(k) {
                let i = choose|i: int| 0 <= i < after.len() && after[i] == k;
                if i < before.len() {
                    assert(before[i] == k);
                }
            }
        }
    }
}

/// A column of the union stood there or was added.
proof fn lemma_with_columns(columns: Seq<ColModel>, more: Seq<ColModel>, i: int)
    requires
        columns.len() <= i < with_columns(columns, more).len(),
    ensures
        more.contains(with_columns(columns, more)[i]),
    decreases more.len(),
{
    if more.len() > 0 {
        let d = more.drop_last();
        let before = with_columns(columns, d);
        if i < before.len() {
            lemma_with_columns(columns, d, i);
            let k = choose|k: int| 0 <= k < d.len() && d[k] == before[i];
            assert(more[k] == before[i]);
        } else {
            assert(more[more.len() - 1] == with_columns(columns, more)[i]);
        }
    }
}

proof fn lemma_no_decl_clash(ours: Seq<ColModel>, theirs: Seq<ColModel>, i: int)
    requires
        decl_clash(ours, theirs) is None,
        0 <= i < ours.len(),
    ensures
        column_named(theirs, ours[i].name) matches Some(t) ==> t.decl == ours[i].decl,
    decreases ours.len(),
{
    if i > 0 {
        assert(ours.drop_first()[i - 1] == ours[i]);
        lemma_no_decl_clash(ours.drop_first(), theirs, i - 1);
    }
}

/// Did a side only add: columns behind those of the base, none of them required or part of
/// the key, and no fewer constraints?
pub open spec fn only_added(base: SchemaModel, side: SchemaModel) -> bool {
    &&& side.pk == base.pk
    &&& side.strict == base.strict
    &&& side.constraints.len() >= base.constraints.len()
    &&& side.columns.len() >= base.columns.len()
    &&& forall|i: int|
        0 <= i < base.columns.len() ==> (#[trigger] side.columns[i]).name == base.columns[i].name
            && side.columns[i].notnull == base.columns[i].notnull && side.columns[i].dflt
            == base.columns[i].dflt && side.columns[i].pk_pos == base.columns[i].pk_pos
    &&& forall|i: int|
        base.columns.len() <= i < side.columns.len() ==> !(#[trigger] side.columns[i]).notnull
            && side.columns[i].pk_pos is None
}

/// Where both sides moved the schema, and not to the same, it merges only if both only
/// added. The merge then keeps name, key, strictness, columns and constraints of the base,
/// has every column and every constraint of either side, and nothing beside these.
pub proof fn law_merge_joins_additions(
    b: SchemaModel,
    o: SchemaModel,
    t: SchemaModel,
    ir: SchemaModel,
)
    requires
        schema_merge(Some(b), Some(o), Some(t)) == SchemaDecision::<SchemaModel, Seq<char>>::Clean(
            ir,
        ),
        !declares_alike(o, b),
        !declares_alike(t, b),
        !declares_alike(o, t),
    ensures
        only_added(b, o) && only_added(b, t),
        ir.table == b.table && ir.pk == b.pk && ir.strict == b.strict,
        ir.columns.len() >= b.columns.len() && ir.columns.take(b.columns.len() as int) == b.columns,
        forall|i: int|
            0 <= i < o.columns.len() ==> has_name(ir.columns, (#[trigger] o.columns[i]).name),
        forall|i: int|
            0 <= i < t.columns.len() ==> has_name(ir.columns, (#[trigger] t.columns[i]).name),
        forall|i: int|
            b.columns.len() <= i < ir.columns.len() ==> o.columns.contains(
                #[trigger] ir.columns[i],
            ) || t.columns.contains(ir.columns[i]),
        forall|k: Seq<char>| #[trigger]
            ir.constraints.contains(k) <==> b.constraints.contains(k) || o.constraints.contains(k)
                || t.constraints.contains(k),
{
    law_same_schemas_declare_alike(o, b);
    law_same_schemas_declare_alike(t, b);
    law_same_schemas_declare_alike(o, t);
    let oc = change_of(o, b);
    let tc = change_of(t, b);
    assert(oc is Compatible && tc is Compatible);
    assert forall|i: int| 0 <= i < b.columns.len() implies column_same(
        #[trigger] b.columns[i],
        o.columns[i],
    ) && column_same(b.columns[i], t.columns[i]) by {}
    assert(only_added(b, o)) by {
        assert forall|i: int| 0 <= i < b.columns.len() implies (#[trigger] o.columns[i]).name
            == b.columns[i].name && o.columns[i].notnull == b.columns[i].notnull
            && o.columns[i].dflt == b.columns[i].dflt && o.columns[i].pk_pos
            == b.columns[i].pk_pos by {
            assert(column_same(b.columns[i], o.columns[i]));
        }
    }
    assert(only_added(b, t)) by {
        assert forall|i: int| 0 <= i < b.columns.len() implies (#[trigger] t.columns[i]).name
            == b.columns[i].name && t.columns[i].notnull == b.columns[i].notnull
            && t.columns[i].dflt == b.columns[i].dflt && t.columns[i].pk_pos
            == b.columns[i].pk_pos by {
            assert(column_same(b.columns[i], t.columns[i]));
        }
    }
    let oa = added_to(b, o);
    let ta = added_to(b, t);
    let p = |c: ColModel| !has_name(b.columns, c.name);
    let mid = with_columns(b.columns, oa);
    law_union_keeps_base(b.columns, oa);
    law_union_keeps_base(mid, ta);
    assert(ir.columns == with_columns(mid, ta));
    assert(ir.columns.take(b.columns.len() as int) =~= mid.take(b.columns.len() as int)) by {
        assert forall|i: int| 0 <= i < b.columns.len() implies ir.columns[i] == mid[i] by {
            assert(ir.columns.take(mid.len() as int)[i] == mid[i]);
        }
    }
    assert forall|i: int| 0 <= i < o.columns.len() implies has_name(
        ir.columns,
        (#[trigger] o.columns[i]).name,
    ) by {
        let c = o.columns[i];
        if has_name(b.columns, c.name) {
            let k = choose|k: int|
                0 <= k < b.columns.len() && (#[trigger] b.columns[k]).name == c.name;
            assert(ir.columns.take(b.columns.len() as int)[k] == b.columns[k]);
            assert(ir.columns[k].name == c.name);
        } else {
            lemma_filter_has(o.columns, p, c);
            assert(o.columns.contains(c));
            let k = choose|k: int| 0 <= k < oa.len() && oa[k] == c;
            law_union_has_added(b.columns, oa, k);
            let j = choose|j: int| 0 <= j < mid.len() && (#[trigger] mid[j]).name == c.name;
            assert(ir.columns.take(mid.len() as int)[j] == mid[j]);
            assert(ir.columns[j].name == c.name);
        }
    }
    assert forall|i: int| 0 <= i < t.columns.len() implies has_name(
        ir.columns,
        (#[trigger] t.columns[i]).name,
    ) by {
        let c = t.columns[i];
        if has_name(b.columns, c.name) {
            let k = choose|k: int|
                0 <= k < b.columns.len() && (#[trigger] b.columns[k]).name == c.name;
            assert(ir.columns.take(b.columns.len() as int)[k] == b.columns[k]);
            assert(ir.columns[k].name == c.name);
        } else {
            lemma_filter_has(t.columns, p, c);
            assert(t.columns.contains(c));
            let k = choose|k: int| 0 <= k < ta.len() && ta[k] == c;
            law_union_has_added(mid, ta, k);
        }
    }
    assert forall|i: int| b.columns.len() <= i < ir.columns.len() implies o.columns.contains(
        #[trigger] ir.columns[i],
    ) || t.columns.contains(ir.columns[i]) by {
        let c = ir.columns[i];
        if i < mid.len() {
            lemma_with_columns(b.columns, oa, i);
            assert(ir.columns.take(mid.len() as int)[i] == mid[i]);
            lemma_filter_has(o.columns, p, c);
        } else {
            lemma_with_columns(mid, ta, i);
            lemma_filter_has(t.columns, p, c);
        }
    }
    let on = new_constraints(b.constraints, o.constraints);
    let tn = new_constraints(b.constraints, t.constraints);
    let q = |c: Seq<char>| !b.constraints.contains(c);
    assert forall|k: Seq<char>| #[trigger]
        ir.constraints.contains(k) <==> b.constraints.contains(k) || o.constraints.contains(k)
            || t.constraints.contains(k) by {
        lemma_with_missing(b.constraints, on, k);
        lemma_with_missing(with_missing(b.constraints, on), tn, k);
        lemma_filter_has(o.constraints, q, k);
        lemma_filter_has(t.constraints, q, k);
    }
}

/// Where both sides moved the schema and it merges, a column that both added has one
/// declaration, and not both added constraints of which the other has none.
pub proof fn law_clashing_additions_conflict(
    b: SchemaModel,
    o: SchemaModel,
    t: SchemaModel,
    ir: SchemaModel,
    i: int,
)
    requires
        schema_merge(Some(b), Some(o), Some(t)) == SchemaDecision::<SchemaModel, Seq<char>>::Clean(
            ir,
        ),
        !declares_alike(o, b),
        !declares_alike(t, b),
        !declares_alike(o, t),
        0 <= i < o.columns.len(),
        !has_name(b.columns, o.columns[i].name),
        forall|j: int, k: int|
            0 <= j < k < t.columns.len() ==> (#[trigger] t.columns[j]).name != (
            #[trigger] t.columns[k]).name,
    ensures
        forall|j: int|
            0 <= j < t.columns.len() && (#[trigger] t.columns[j]).name == o.columns[i].name
                ==> t.columns[j].decl == o.columns[i].decl,
        forall|k: Seq<char>, l: Seq<char>|
            #![trigger o.constraints.contains(k), t.constraints.contains(l)]
            o.constraints.contains(k) && !b.constraints.contains(k) && t.constraints.contains(l)
                && !b.constraints.contains(l) ==> t.constraints.contains(k)
                && o.constraints.contains(l),
{
    law_same_schemas_declare_alike(o, b);
    law_same_schemas_declare_alike(t, b);
    law_same_schemas_declare_alike(o, t);
    let oa = added_to(b, o);
    let ta = added_to(b, t);
    let p = |c: ColModel| !has_name(b.columns, c.name);
    let c = o.columns[i];
    lemma_filter_has(o.columns, p, c);
    assert(o.columns.contains(c));
    let k = choose|k: int| 0 <= k < oa.len() && oa[k] == c;
    lemma_no_decl_clash(oa, ta, k);
    assert forall|j: int|
        0 <= j < t.columns.len() && (#[trigger] t.columns[j]).name == c.name implies t.columns[j].decl
        == c.decl by {
        let x = t.columns[j];
        lemma_filter_has(t.columns, p, x);
        assert(t.columns.contains(x));
        let y = lemma_column_named(ta, x);
        lemma_filter_has(t.columns, p, y);
        let m = choose|m: int| 0 <= m < t.columns.len() && t.columns[m] == y;
        assert(t.columns[m].name == t.columns[j].name);
        assert(m == j);
    }
    let on = new_constraints(b.constraints, o.constraints);
    let tn = new_constraints(b.constraints, t.constraints);
    let q = |c: Seq<char>| !b.constraints.contains(c);
    assert forall|k: Seq<char>, l: Seq<char>|
        #![trigger o.constraints.contains(k), t.constraints.contains(l)]
        o.constraints.contains(k) && !b.constraints.contains(k) && t.constraints.contains(l)
            && !b.constraints.contains(l) implies t.constraints.contains(k)
        && o.constraints.contains(l) by {
        lemma_filter_has(o.constraints, q, k);
        lemma_filter_has(t.constraints, q, l);
        lemma_filter_has(t.constraints, q, k);
        lemma_filter_has(o.constraints, q, l);
        assert(on.to_set() == tn.to_set());
        assert(on.to_set().contains(k));
        assert(tn.to_set().contains(l));
    }
}

/// The first column of a name that a column has.
proof fn lemma_column_named(columns: Seq<ColModel>, x: ColModel) -> (y: ColModel)
    requires
        columns.contains(x),
    ensures
        column_named(columns, x.name) == Some(y),
        columns.contains(y),
        y.name == x.name,
    decreases columns.len(),
{
    if columns[0].name == x.name {
        assert(columns.contains(columns[0]));
        columns[0]
    } else {
        let d = columns.drop_first();
        let i = choose|i: int| 0 <= i < columns.len() && columns[i] == x;
        assert(d[i - 1] == x);
        let y = lemma_column_named(d, x);
        let k = choose|k: int| 0 <= k < d.len() && d[k] == y;
        assert(columns[k + 1] == y);
        y
    }
}

// ---------------------------------------------------------------------------
// Parsing
// ---------------------------------------------------------------------------

/// The state of a column definition under way.
pub struct ColState {
    pub parts: Seq<Seq<char>>,
    pub notnull: bool,
    pub dflt: Option<Seq<char>>,
    pub pk: bool,
}

/// Does this word end a default expression?
pub open spec fn ends_default(w: Seq<char>) -> bool {
    let u = crate::text::uppercase(w);
    u == "NOT"@ || u == "NULL"@ || u == "PRIMARY"@ || u == "DEFAULT"@ || u == "CHECK"@ || u
        == "UNIQUE"@ || u == "COLLATE"@ || u == "REFERENCES"@ || u == ","@
}

/// Where a default expression that starts at `i` ends.
pub open spec fn default_end(toks: Seq<Seq<char>>, i: int) -> int
    decreases toks.len() - i,
{
    if i >= toks.len() || ends_default(toks[i]) {
        i
    } else {
        default_end(toks, i + 1)
    }
}

/// The words between two places, with a space between them.
pub open spec fn spaced(toks: Seq<Seq<char>>, a: int, b: int) -> Seq<char>
    decreases b - a,
{
    if a >= b {
        seq![]
    } else {
        let before = spaced(toks, a, b - 1);
        if before.len() == 0 {
            toks[b - 1]
        } else {
            before + " "@ + toks[b - 1]
        }
    }
}

/// The words from `a` up to `b`, each behind a space.
pub open spec fn trailing(toks: Seq<Seq<char>>, a: int, b: int) -> Seq<char>
    decreases b - a,
{
    if a >= b {
        seq![]
    } else {
        trailing(toks, a, b - 1) + " "@ + toks[b - 1]
    }
}

/// Add a piece to the declaration.
pub open spec fn with_part(st: ColState, part: Seq<char>) -> ColState {
    ColState { parts: st.parts.push(part), ..st }
}

/// Read one clause of a column definition at `i`; also the place behind it.
pub open spec fn col_step(toks: Seq<Seq<char>>, i: int, st: ColState) -> (ColState, int) {
    let w = crate::text::uppercase(toks[i]);
    if w == "NOT"@ {
        if crate::sql::is_word(toks, i + 1, "NULL"@) {
            (ColState { notnull: true, ..with_part(st, "NOT NULL"@) }, i + 2)
        } else {
            (st, i + 1)
        }
    } else if w == "NULL"@ {
        (with_part(st, "NULL"@), i + 1)
    } else if w == "DEFAULT"@ {
        let end = default_end(toks, i + 1);
        let expr = spaced(toks, i + 1, end);
        (ColState { dflt: Some(expr), ..with_part(st, "DEFAULT "@ + expr) }, end)
    } else if w == "PRIMARY"@ {
        let j = crate::sql::after_word(toks, i + 1, "KEY"@);
        let one = ColState { pk: true, ..with_part(st, "PRIMARY KEY"@) };
        if crate::sql::is_word(toks, j, "AUTOINCREMENT"@) {
            (with_part(one, "AUTOINCREMENT"@), j + 1)
        } else {
            (one, j)
        }
    } else if w == "AUTOINCREMENT"@ {
        (with_part(st, "AUTOINCREMENT"@), i + 1)
    } else if w == "CHECK"@ {
        let (expr, next) = crate::sql::paren_expr(toks, i);
        (with_part(st, "CHECK ("@ + expr + ")"@), next)
    } else if w == "UNIQUE"@ {
        (with_part(st, "UNIQUE"@), i + 1)
    } else if w == "COLLATE"@ {
        if i + 1 < toks.len() {
            (with_part(st, "COLLATE "@ + toks[i + 1]), i + 2)
        } else {
            (st, i + 1)
        }
    } else if w == "REFERENCES"@ {
        (
            with_part(st, "REFERENCES"@ + trailing(toks, i + 1, toks.len() as int)),
            toks.len() as int,
        )
    } else if toks[i] == ","@ {
        (st, i + 1)
    } else {
        (with_part(st, toks[i]), i + 1)
    }
}

/// Read the clauses of a column definition from `i` on.
pub open spec fn col_clauses(toks: Seq<Seq<char>>, i: int, st: ColState) -> ColState
    decreases toks.len() - i,
{
    if i >= toks.len() {
        st
    } else {
        let (next, j) = col_step(toks, i, st);
        if i < j <= toks.len() {
            col_clauses(toks, j, next)
        } else {
            st
        }
    }
}

/// The column that a definition declares; none of an empty text.
pub open spec fn column_of(item: Seq<char>) -> Option<ColModel> {
    let toks = crate::sql::words(item);
    if toks.len() == 0 {
        None
    } else {
        let st = col_clauses(
            toks,
            1,
            ColState { parts: seq![], notnull: false, dflt: None, pk: false },
        );
        Some(
            ColModel {
                name: crate::sql::unquoted(toks[0]),
                decl: crate::text::joined(st.parts, " "@),
                notnull: st.notnull,
                dflt: st.dflt,
                pk_pos: if st.pk {
                    Some(0usize)
                } else {
                    None
                },
            },
        )
    }
}

/// The columns of a `PRIMARY KEY (..)` clause.
pub open spec fn table_pk(item: Seq<char>) -> Option<Seq<Seq<char>>> {
    let toks = crate::sql::words(item);
    if crate::sql::is_word(toks, 0, "PRIMARY"@) && crate::sql::is_word(toks, 1, "KEY"@) {
        match crate::sql::paren_list(toks, 2) {
            Some((names, _)) => if names.len() > 0 {
                Some(names)
            } else {
                None
            },
            None => None,
        }
    } else {
        None
    }
}

/// Does the item open with the keyword of a table constraint?
pub open spec fn is_constraint(item: Seq<char>) -> bool {
    let toks = crate::sql::words(item);
    let w = crate::text::uppercase(
        if toks.len() > 0 {
            toks[0]
        } else {
            seq![]
        },
    );
    w == "CHECK"@ || w == "UNIQUE"@ || w == "FOREIGN"@ || w == "PRIMARY"@
}

/// The items of a table body that opens before `i`: split at the commas of the
/// outermost level up to the closing parenthesis; also the place behind it.
pub open spec fn body_items(
    toks: Seq<Seq<char>>,
    i: int,
    depth: nat,
    items: Seq<Seq<char>>,
    current: Seq<char>,
) -> (Seq<Seq<char>>, int)
    decreases toks.len() - i,
{
    if i >= toks.len() {
        (items, i)
    } else if toks[i] == "("@ {
        body_items(toks, i + 1, depth + 1, items, current + "( "@)
    } else if toks[i] == ")"@ {
        if depth <= 1 {
            if crate::text::trimmed(current).len() > 0 {
                (items.push(crate::text::trimmed(current)), i + 1)
            } else {
                (items, i + 1)
            }
        } else {
            body_items(toks, i + 1, (depth - 1) as nat, items, current + ") "@)
        }
    } else if toks[i] == ","@ && depth == 1 {
        body_items(toks, i + 1, depth, items.push(crate::text::trimmed(current)), seq![])
    } else {
        body_items(toks, i + 1, depth, items, current + toks[i] + " "@)
    }
}

/// What the items of a body declare.
pub struct Body {
    pub columns: Seq<ColModel>,
    pub constraints: Seq<Seq<char>>,
    pub pk: Seq<Seq<char>>,
    /// A primary-key clause has set the key.
    pub by_clause: bool,
}

/// Add one item: a primary-key clause sets the key, a column that declares
/// itself a key joins it in front unless a clause has set it, and what is
/// neither is a constraint.
pub open spec fn body_step(b: Body, item: Seq<char>) -> Body {
    match table_pk(item) {
        Some(pk) => Body { pk, by_clause: true, ..b },
        None => if is_constraint(item) {
            Body { constraints: b.constraints.push(item), ..b }
        } else {
            match column_of(item) {
                Some(c) => Body {
                    columns: b.columns.push(c),
                    pk: if c.pk_pos is Some && !b.by_clause && !b.pk.contains(c.name) {
                        b.pk.insert(0, c.name)
                    } else {
                        b.pk
                    },
                    ..b
                },
                None => Body { constraints: b.constraints.push(item), ..b },
            }
        },
    }
}

/// Add all items in order.
pub open spec fn body_of(items: Seq<Seq<char>>) -> Body
    decreases items.len(),
{
    if items.len() == 0 {
        Body { columns: seq![], constraints: seq![], pk: seq![], by_clause: false }
    } else {
        body_step(body_of(items.drop_last()), items.last())
    }
}

/// The position of a column in a primary key.
pub open spec fn key_position(pk: Seq<Seq<char>>, name: Seq<char>) -> Option<usize> {
    match crate::merge::column_index(pk, name) {
        Some(i) => Some(i as usize),
        None => None,
    }
}

/// A column with its position in a primary key.
pub open spec fn placed(c: ColModel, pk: Seq<Seq<char>>) -> ColModel {
    ColModel { pk_pos: key_position(pk, c.name), ..c }
}

/// Step over any `IF NOT EXISTS`.
pub open spec fn after_if(toks: Seq<Seq<char>>, i: int) -> int
    decreases toks.len() - i,
{
    if crate::sql::is_word(toks, i, "IF"@) {
        let j = crate::sql::after_word(toks, i + 1, "NOT"@);
        after_if(toks, crate::sql::after_word(toks, j, "EXISTS"@))
    } else {
        i
    }
}

/// The schema that a statement declares; none where it is no `CREATE TABLE`.
pub open spec fn schema_of(sql: Seq<char>) -> Option<SchemaModel> {
    let toks = crate::sql::words(sql);
    if !crate::sql::is_word(toks, 0, "CREATE"@) || !crate::sql::is_word(toks, 1, "TABLE"@) {
        None
    } else {
        let n = after_if(toks, 2);
        if n >= toks.len() || !crate::sql::is_word(toks, n + 1, "("@) {
            None
        } else {
            let (items, next) = body_items(toks, n + 2, 1, seq![], seq![]);
            let b = body_of(items);
            Some(
                SchemaModel {
                    table: crate::sql::unquoted(toks[n]),
                    columns: b.columns.map_values(|c: ColModel| placed(c, b.pk)),
                    pk: b.pk,
                    sql,
                    constraints: b.constraints,
                    strict: crate::sql::is_word(toks, next, "STRICT"@),
                },
            )
        }
    }
}

/// Does this word end a default expression?
fn is_default_boundary(tok: &str) -> (r: bool)
    ensures
        r == ends_default(tok@),
{
    let u = upper(tok);
    let u = u.as_str();
    str_eq(u, "NOT") || str_eq(u, "NULL") || str_eq(u, "PRIMARY") || str_eq(u, "DEFAULT") || str_eq(
        u,
        "CHECK",
    ) || str_eq(u, "UNIQUE") || str_eq(u, "COLLATE") || str_eq(u, "REFERENCES") || str_eq(u, ",")
}

/// Read a default expression that starts at `i`; also the place behind it.
fn read_default(tokens: &Vec<String>, i: usize) -> (r: (String, usize))
    requires
        i <= tokens@.len(),
    ensures
        r.1 == default_end(tokens.deep_view(), i as int),
        r.0@ == spaced(tokens.deep_view(), i as int, r.1 as int),
        i <= r.1 <= tokens@.len(),
{
    let ghost t = tokens.deep_view();
    let mut expr = String::new();
    let mut j: usize = i;
    assert(expr@ =~= seq![]);
    while j < tokens.len() && !is_default_boundary(tokens[j].as_str())
        invariant
            i <= j <= tokens@.len(),
            t == tokens.deep_view(),
            default_end(t, j as int) == default_end(t, i as int),
            expr@ == spaced(t, i as int, j as int),
        decreases tokens.len() - j,
    {
        assert(t[j as int] == tokens@[j as int]@);
        if !expr.as_str().is_empty() {
            expr.append(" ");
            expr.append(tokens[j].as_str());
        } else {
            expr = tokens[j].clone();
        }
        j = j + 1;
    }
    assert(j < tokens@.len() ==> t[j as int] == tokens@[j as int]@);
    (expr, j)
}

/// All words from `i` on, each behind a space.
fn read_trailing(tokens: &Vec<String>, i: usize) -> (r: String)
    requires
        i <= tokens@.len(),
    ensures
        r@ == trailing(tokens.deep_view(), i as int, tokens@.len() as int),
{
    let ghost t = tokens.deep_view();
    let mut out = String::new();
    let mut j: usize = i;
    assert(out@ =~= seq![]);
    while j < tokens.len()
        invariant
            i <= j <= tokens@.len(),
            t == tokens.deep_view(),
            out@ == trailing(t, i as int, j as int),
        decreases tokens.len() - j,
    {
        assert(t[j as int] == tokens@[j as int]@);
        out.append(" ");
        out.append(tokens[j].as_str());
        j = j + 1;
    }
    out
}

/// A column definition under way.
struct ColParts {
    parts: Vec<String>,
    notnull: bool,
    dflt: Option<String>,
    pk: bool,
}

impl ColParts {
    spec fn state(&self) -> ColState {
        ColState {
            parts: self.parts.deep_view(),
            notnull: self.notnull,
            dflt: self.dflt.deep_view(),
            pk: self.pk,
        }
    }

    fn part(&mut self, text: String)
        ensures
            final(self).state() == with_part(old(self).state(), text@),
    {
        let ghost x = text@;
        self.parts.push(text);
        assert(self.parts.deep_view() =~= old(self).parts.deep_view().push(x));
    }
}

/// Read one clause of a column definition at `i`; the place behind it.
fn read_clause(tokens: &Vec<String>, i: usize, st: &mut ColParts) -> (next: usize)
    requires
        i < tokens@.len(),
    ensures
        (final(st).state(), next as int) == col_step(tokens.deep_view(), i as int, old(st).state()),
        i < next <= tokens@.len(),
{
    let ghost t = tokens.deep_view();
    assert(t[i as int] == tokens@[i as int]@);
    assert(i < tokens.len());
    let word = upper(tokens[i].as_str());
    let w = word.as_str();
    let mut j: usize = i + 1;
    if str_eq(w, "NOT") {
        if next_is(tokens, &mut j, "NULL") {
            st.part("NOT NULL".to_owned());
            st.notnull = true;
        }
    } else if str_eq(w, "NULL") {
        st.part("NULL".to_owned());
    } else if str_eq(w, "DEFAULT") {
        let (expr, end) = read_default(tokens, j);
        st.part(cat2("DEFAULT ", expr.as_str()));
        st.dflt = Some(expr);
        j = end;
    } else if str_eq(w, "PRIMARY") {
        let _ = next_is(tokens, &mut j, "KEY");
        st.part("PRIMARY KEY".to_owned());
        st.pk = true;
        if next_is(tokens, &mut j, "AUTOINCREMENT") {
            st.part("AUTOINCREMENT".to_owned());
        }
    } else if str_eq(w, "AUTOINCREMENT") {
        st.part("AUTOINCREMENT".to_owned());
    } else if str_eq(w, "CHECK") {
        let (expr, end) = capture_paren_expr(tokens, i);
        st.part(cat3("CHECK (", expr.as_str(), ")"));
        j = end;
    } else if str_eq(w, "UNIQUE") {
        st.part("UNIQUE".to_owned());
    } else if str_eq(w, "COLLATE") {
        if j < tokens.len() {
            assert(t[j as int] == tokens@[j as int]@);
            st.part(cat2("COLLATE ", tokens[j].as_str()));
            j = j + 1;
        }
    } else if str_eq(w, "REFERENCES") {
        let rest = read_trailing(tokens, j);
        st.part(cat2("REFERENCES", rest.as_str()));
        j = tokens.len();
    } else if !str_eq(tokens[i].as_str(), ",") {
        st.part(tokens[i].clone());
    }
    j
}

/// The column that a definition declares.
fn parse_column(item: &str) -> (r: Option<ColIR>)
    ensures
        match column_of(item@) {
            Some(c) => r matches Some(x) && x.deep_view() == c,
            None => r is None,
        },
{
    let tokens = tokenize(item);
    let ghost t = tokens.deep_view();
    if tokens.len() == 0 {
        return None;
    }
    assert(t[0] == tokens@[0]@);
    let name = unquote_ident(tokens[0].as_str());
    let mut st = ColParts { parts: Vec::new(), notnull: false, dflt: None, pk: false };
    assert(st.state().parts =~= seq![]);
    let ghost start = st.state();
    let mut i: usize = 1;
    while i < tokens.len()
        invariant
            1 <= i <= tokens@.len(),
            t == tokens.deep_view(),
            col_clauses(t, i as int, st.state()) == col_clauses(t, 1, start),
        decreases tokens.len() - i,
    {
        i = read_clause(&tokens, i, &mut st);
    }
    let pk_pos = if st.pk {
        Some(0)
    } else {
        None
    };
    Some(
        ColIR { name, decl: join(&st.parts, " "), notnull: st.notnull, dflt: st.dflt, pk_pos },
    )
}

/// The columns of a `PRIMARY KEY (..)` clause.
fn parse_table_pk(item: &str) -> (r: Option<Vec<String>>)
    ensures
        match table_pk(item@) {
            Some(pk) => r matches Some(v) && v.deep_view() == pk,
            None => r is None,
        },
{
    let tokens = tokenize(item);
    let mut i: usize = 0;
    if !next_is(&tokens, &mut i, "PRIMARY") || !next_is(&tokens, &mut i, "KEY") {
        return None;
    }
    match read_paren_list(&tokens, &mut i) {
        Some(names) => {
            if names.len() == 0 {
                None
            } else {
                Some(names)
            }
        },
        None => None,
    }
}

/// Does the item open with the keyword of a table constraint?
fn is_table_constraint(item: &str) -> (r: bool)
    ensures
        r == is_constraint(item@),
{
    let tokens = tokenize(item);
    let first = if tokens.len() > 0 {
        assert(tokens.deep_view()[0] == tokens@[0]@);
        upper(tokens[0].as_str())
    } else {
        let e = String::new();
        assert(e@ =~= seq![]);
        upper(e.as_str())
    };
    let w = first.as_str();
    str_eq(w, "CHECK") || str_eq(w, "UNIQUE") || str_eq(w, "FOREIGN") || str_eq(w, "PRIMARY")
}

/// Split a table body that opens before `i` into items; also the place behind.
fn collect_until_paren(tokens: &Vec<String>, i: usize) -> (r: (Vec<String>, usize))
    requires
        1 <= i <= tokens@.len(),
    ensures
        (r.0.deep_view(), r.1 as int) == body_items(
            tokens.deep_view(),
            i as int,
            1,
            seq![],
            seq![],
        ),
{
    let ghost t = tokens.deep_view();
    let mut depth: usize = 1;
    let mut items: Vec<String> = Vec::new();
    let mut current = String::new();
    let mut j: usize = i;
    assert(items.deep_view() =~= seq![]);
    assert(current@ =~= seq![]);
    while j < tokens.len()
        invariant
            1 <= i <= j <= tokens@.len(),
            t == tokens.deep_view(),
            1 <= depth <= j - i + 1,
            body_items(t, j as int, depth as nat, items.deep_view(), current@) == body_items(
                t,
                i as int,
                1,
                seq![],
                seq![],
            ),
        decreases tokens.len() - j,
    {
        let ghost before = items.deep_view();
        assert(t[j as int] == tokens@[j as int]@);
        let tok = tokens[j].as_str();
        assert(j < tokens.len());
        if str_eq(tok, "(") {
            depth = depth + 1;
            current.append("( ");
        } else if str_eq(tok, ")") {
            if depth == 1 {
                let last = trim(current.as_str());
                let ghost x = last@;
                if !last.as_str().is_empty() {
                    items.push(last);
                    assert(items.deep_view() =~= before.push(x));
                }
                return (items, j + 1);
            }
            depth = depth - 1;
            current.append(") ");
        } else if depth == 1 && str_eq(tok, ",") {
            let item = trim(current.as_str());
            let ghost x = item@;
            items.push(item);
            assert(items.deep_view() =~= before.push(x));
            current = String::new();
            assert(current@ =~= seq![]);
        } else {
            current.append(tok);
            current.append(" ");
        }
        j = j + 1;
    }
    (items, j)
}

/// What the items of a body declare.
fn parse_body(items: &Vec<String>) -> (r: (Vec<ColIR>, Vec<String>, Vec<String>))
    ensures
        ({
            let b = body_of(items.deep_view());
            r.0.deep_view() == b.columns && r.1.deep_view() == b.constraints && r.2.deep_view()
                == b.pk
        }),
{
    let ghost s = items.deep_view();
    let mut columns: Vec<ColIR> = Vec::new();
    let mut constraints: Vec<String> = Vec::new();
    let mut pk: Vec<String> = Vec::new();
    let mut by_clause = false;
    let mut i: usize = 0;
    assert(s.take(0) =~= seq![]);
    assert(columns.deep_view() =~= seq![]);
    assert(constraints.deep_view() =~= seq![]);
    assert(pk.deep_view() =~= seq![]);
    while i < items.len()
        invariant
            i <= items@.len(),
            s == items.deep_view(),
            body_of(s.take(i as int)) == (Body {
                columns: columns.deep_view(),
                constraints: constraints.deep_view(),
                pk: pk.deep_view(),
                by_clause,
            }),
        decreases items.len() - i,
    {
        assert(s.take(i + 1).drop_last() =~= s.take(i as int));
        assert(s.take(i + 1).last() == items@[i as int]@);
        let ghost cols = columns.deep_view();
        let ghost cons = constraints.deep_view();
        let ghost keys = pk.deep_view();
        let item = items[i].as_str();
        if let Some(table_pk) = parse_table_pk(item) {
            pk = table_pk;
            by_clause = true;
        } else if is_table_constraint(item) {
            constraints.push(items[i].clone());
            assert(constraints.deep_view() =~= cons.push(s[i as int]));
        } else if let Some(col) = parse_column(item) {
            if col.pk_pos.is_some() && !by_clause && !has_text(&pk, col.name.as_str()) {
                let ghost n = col.name@;
                pk.insert(0, col.name.clone());
                assert(pk.deep_view() =~= keys.insert(0, n));
            }
            let ghost c = col.deep_view();
            columns.push(col);
            assert(columns.deep_view() =~= cols.push(c));
        } else {
            constraints.push(items[i].clone());
            assert(constraints.deep_view() =~= cons.push(s[i as int]));
        }
        i = i + 1;
    }
    assert(s.take(i as int) =~= s);
    (columns, constraints, pk)
}

/// The position of a column in a primary key.
pub fn position_in_key(pk: &Vec<String>, name: &str) -> (r: Option<usize>)
    ensures
        r == key_position(pk.deep_view(), name@),
{
    crate::merge::find_column(pk, name)
}

/// The columns with their positions in a primary key.
fn place_columns(columns: &Vec<ColIR>, pk: &Vec<String>) -> (r: Vec<ColIR>)
    ensures
        r.deep_view() == columns.deep_view().map_values(
            |c: ColModel| placed(c, pk.deep_view()),
        ),
{
    let mut out: Vec<ColIR> = Vec::new();
    let mut i: usize = 0;
    while i < columns.len()
        invariant
            i <= columns@.len(),
            out@.len() == i,
            forall|j: int|
                0 <= j < i ==> (#[trigger] out@[j]).deep_view() == placed(
                    columns@[j].deep_view(),
                    pk.deep_view(),
                ),
        decreases columns.len() - i,
    {
        let mut c = columns[i].dup();
        c.pk_pos = position_in_key(pk, c.name.as_str());
        out.push(c);
        i = i + 1;
    }
    assert(out.deep_view() =~= columns.deep_view().map_values(
        |c: ColModel| placed(c, pk.deep_view()),
    ));
    out
}

/// Parse a `CREATE TABLE` statement; `None` where it is none.
pub fn parse_schema(sql: &str) -> (r: Option<SchemaIR>)
    ensures
        match schema_of(sql@) {
            Some(s) => r matches Some(x) && x.deep_view() == s,
            None => r is None,
        },
{
    let tokens = tokenize(sql);
    let ghost t = tokens.deep_view();
    let mut i: usize = 0;
    if !next_is(&tokens, &mut i, "CREATE") {
        return None;
    }
    if !next_is(&tokens, &mut i, "TABLE") {
        return None;
    }
    while next_is(&tokens, &mut i, "IF")
        invariant
            2 <= i <= tokens@.len(),
            t == tokens.deep_view(),
            after_if(t, i as int) == after_if(t, 2),
        ensures
            after_if(t, 2) == i,
            2 <= i <= tokens@.len(),
        decreases tokens.len() - i,
    {
        let _ = next_is(&tokens, &mut i, "NOT");
        let _ = next_is(&tokens, &mut i, "EXISTS");
    }
    if i >= tokens.len() {
        return None;
    }
    assert(t[i as int] == tokens@[i as int]@);
    let table = unquote_ident(tokens[i].as_str());
    i = i + 1;
    if !next_is(&tokens, &mut i, "(") {
        return None;
    }
    let (items, next) = collect_until_paren(&tokens, i);
    let (declared, constraints, pk) = parse_body(&items);
    let columns = place_columns(&declared, &pk);
    let strict = crate::sql::word_is(&tokens, next, "STRICT");
    Some(SchemaIR { table, columns, pk, sql: sql.to_owned(), constraints, strict })
}

} // verus!
