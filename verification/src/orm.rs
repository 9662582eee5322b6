//! Typed rows over a repository.
//!
//! Branch and table names are types of their own, rows are read and written
//! through `VersionedRow`, and a handle borrows the database, so that there is
//! never more than one handle at a time.

use vstd::prelude::*;

use core::marker::PhantomData;

use crate::assoc::AssocMap;
use crate::merge::sorted_row_keys;
use crate::model::{CommitId, VersionError, VersionResult};
use crate::staging::{SnapModel, StoreModel, TableSnapshot, VcStore};
use crate::table_merge::Fault;
use crate::text::{cat2, cat5, has_char, has_text, join, trim, Dup, Same};
use crate::values::{RowModel, VcRow, VcValue};

verus! {

// ---------------------------------------------------------------------------
// Names
// ---------------------------------------------------------------------------

/// A branch name without the white space around it; none where it is empty or
/// holds a slash.
pub open spec fn branch_text(raw: Seq<char>) -> Option<Seq<char>> {
    let t = crate::text::trimmed(raw);
    if t.len() == 0 || t.contains('/') {
        None
    } else {
        Some(t)
    }
}

/// A valid branch name.
#[derive(Debug, Clone, PartialEq, Eq, PartialOrd, Ord, Hash)]
pub struct BranchName {
    name: String,
}

impl View for BranchName {
    type V = Seq<char>;

    closed spec fn view(&self) -> Seq<char> {
        self.name@
    }
}

impl BranchName {
    /// Take a branch name. Empty names and names with a slash are refused.
    pub fn new(raw: &str) -> (r: VersionResult<Self>)
        ensures
            match branch_text(raw@) {
                Some(t) => r matches Ok(n) && n@ == t,
                None => r matches Err(e) && e.deep_view() == Fault::BranchNotFound(raw@),
            },
    {
        let name = trim(raw);
        if name.as_str().is_empty() || has_char(name.as_str(), '/') {
            return Err(VersionError::BranchNotFound(raw.to_owned()));
        }
        Ok(BranchName { name })
    }

    pub fn borrowed(s: &str) -> (r: VersionResult<Self>)
        ensures
            match branch_text(s@) {
                Some(t) => r matches Ok(n) && n@ == t,
                None => r matches Err(e) && e.deep_view() == Fault::BranchNotFound(s@),
            },
    {
        Self::new(s)
    }

    pub fn owned(s: String) -> (r: VersionResult<Self>)
        ensures
            match branch_text(s@) {
                Some(t) => r matches Ok(n) && n@ == t,
                None => r matches Err(e) && e.deep_view() == Fault::BranchNotFound(s@),
            },
    {
        Self::new(s.as_str())
    }

    pub fn as_str(&self) -> (r: &str)
        ensures
            r@ == self@,
    {
        self.name.as_str()
    }

    pub fn into_owned(self) -> (r: BranchName)
        ensures
            r@ == self@,
    {
        self
    }

    /// The name as a text.
    pub fn to_string(&self) -> (r: String)
        ensures
            r@ == self@,
    {
        self.name.clone()
    }
}

/// A table name without the white space around it; none where it is empty or
/// holds a slash or a zero.
pub open spec fn table_text(raw: Seq<char>) -> Option<Seq<char>> {
    let t = crate::text::trimmed(raw);
    if t.len() == 0 || t.contains('/') || t.contains('\0') {
        None
    } else {
        Some(t)
    }
}

/// A valid table name.
#[derive(Debug, Clone, PartialEq, Eq, PartialOrd, Ord, Hash)]
pub struct TableName {
    name: String,
}

impl View for TableName {
    type V = Seq<char>;

    closed spec fn view(&self) -> Seq<char> {
        self.name@
    }
}

impl TableName {
    /// Take a table name. Empty names and names with a slash or a zero are
    /// refused.
    pub fn new(raw: &str) -> (r: VersionResult<Self>)
        ensures
            match table_text(raw@) {
                Some(t) => r matches Ok(n) && n@ == t,
                None => r matches Err(e) && e.deep_view() == Fault::TableNotFound(raw@),
            },
    {
        let name = trim(raw);
        if name.as_str().is_empty() || has_char(name.as_str(), '/') || has_char(
            name.as_str(),
            '\0',
        ) {
            return Err(VersionError::TableNotFound(raw.to_owned()));
        }
        Ok(TableName { name })
    }

    pub fn borrowed(s: &str) -> (r: VersionResult<Self>)
        ensures
            match table_text(s@) {
                Some(t) => r matches Ok(n) && n@ == t,
                None => r matches Err(e) && e.deep_view() == Fault::TableNotFound(s@),
            },
    {
        Self::new(s)
    }

    pub fn owned(s: String) -> (r: VersionResult<Self>)
        ensures
            match table_text(s@) {
                Some(t) => r matches Ok(n) && n@ == t,
                None => r matches Err(e) && e.deep_view() == Fault::TableNotFound(s@),
            },
    {
        Self::new(s.as_str())
    }

    pub fn as_str(&self) -> (r: &str)
        ensures
            r@ == self@,
    {
        self.name.as_str()
    }
}

// ---------------------------------------------------------------------------
// Errors
// ---------------------------------------------------------------------------

/// What can go wrong, over the type of a text.
#[derive(Debug)]
pub enum OrmError<S = String> {
    Version(S),
    Decode(S),
    TableNotFound(S),
}

/// What an error stands for.
pub type OrmFault = OrmError<Seq<char>>;

impl DeepView for OrmError {
    type V = OrmFault;

    open spec fn deep_view(&self) -> OrmFault {
        match *self {
            OrmError::Version(m) => OrmError::Version(m@),
            OrmError::Decode(m) => OrmError::Decode(m@),
            OrmError::TableNotFound(m) => OrmError::TableNotFound(m@),
        }
    }
}

/// The message of an error.
pub open spec fn orm_message(e: OrmFault) -> Seq<char> {
    match e {
        OrmError::Version(m) => "orm: "@ + m,
        OrmError::Decode(m) => "orm: row decode failed: "@ + m,
        OrmError::TableNotFound(m) => "orm: table not found: "@ + m,
    }
}

/// A fault of the repository, as an error here.
pub open spec fn of_version(e: Fault) -> OrmFault {
    OrmError::Version(crate::model::version_message(e))
}

impl OrmError {
    /// The message.
    pub fn to_string(&self) -> (r: String)
        ensures
            r@ == orm_message(self.deep_view()),
    {
        match self {
            OrmError::Version(m) => cat2("orm: ", m.as_str()),
            OrmError::Decode(m) => cat2("orm: row decode failed: ", m.as_str()),
            OrmError::TableNotFound(m) => cat2("orm: table not found: ", m.as_str()),
        }
    }

    /// An error for a fault of the repository.
    pub fn from_version(e: VersionError) -> (r: Self)
        ensures
            r.deep_view() == of_version(e.deep_view()),
    {
        OrmError::Version(e.to_string())
    }
}

pub type OrmResult<T> = Result<T, OrmError>;

/// An outcome of the repository, as one here.
pub open spec fn lifted<A>(r: Result<A, Fault>) -> Result<A, OrmFault> {
    match r {
        Ok(x) => Ok(x),
        Err(e) => Err(of_version(e)),
    }
}

fn lift<A: DeepView>(r: VersionResult<A>) -> (v: OrmResult<A>)
    ensures
        crate::model::outcome(v) == lifted(crate::model::outcome(r)),
{
    match r {
        Ok(x) => Ok(x),
        Err(e) => Err(OrmError::from_version(e)),
    }
}

// ---------------------------------------------------------------------------
// Rows
// ---------------------------------------------------------------------------

/// The cells of the key: the first ones; none where the row is too short.
pub open spec fn key_cells(row: RowModel, n: int) -> RowModel {
    if n == 0 || n > row.len() {
        seq![]
    } else {
        row.take(n)
    }
}

/// The first cells of a row, as many as there are.
pub open spec fn first_cells(row: RowModel, n: int) -> RowModel {
    if n > row.len() {
        row
    } else {
        row.take(n)
    }
}

/// A row that a versioned table can hold. The cells of the primary key come
/// first. Verified rows say what they stand for; others need not.
pub trait VersionedRow: Sized {
    type Model;

    /// What a row stands for.
    open spec fn model(&self) -> Self::Model {
        arbitrary()
    }

    open spec fn table_model() -> Seq<char> {
        arbitrary()
    }

    open spec fn columns_model() -> Seq<Seq<char>> {
        arbitrary()
    }

    open spec fn pk_model() -> Seq<Seq<char>> {
        arbitrary()
    }

    /// The cells of a row.
    open spec fn cells(m: Self::Model) -> RowModel {
        arbitrary()
    }

    /// The row that cells stand for.
    open spec fn parsed(row: RowModel) -> Option<Self::Model> {
        arbitrary()
    }

    /// The name of the table.
    fn table() -> (r: &'static str)
        ensures
            r@ == Self::table_model(),
    ;

    /// The columns of the table.
    fn columns() -> (r: Vec<String>)
        ensures
            r.deep_view() == Self::columns_model(),
    ;

    /// The columns of the primary key.
    fn pk() -> (r: Vec<String>)
        ensures
            r.deep_view() == Self::pk_model(),
    ;

    fn into_row(&self) -> (r: VcRow)
        ensures
            r.deep_view() == Self::cells(self.model()),
    ;

    fn from_row(row: &VcRow) -> (r: OrmResult<Self>)
        ensures
            match Self::parsed(row.deep_view()) {
                Some(m) => r matches Ok(v) && v.model() == m,
                None => r is Err,
            },
    ;

    /// The cells of the primary key.
    fn pk_values(&self) -> (r: Vec<VcValue>)
        ensures
            r.deep_view() == key_cells(
                Self::cells(self.model()),
                Self::pk_model().len() as int,
            ),
    {
        let pk = Self::pk();
        assert(pk.deep_view().len() == pk@.len());
        pk_slice(&self.into_row(), pk.len())
    }
}

/// The cells of the key.
fn pk_slice(row: &VcRow, n: usize) -> (r: Vec<VcValue>)
    ensures
        r.deep_view() == key_cells(row.deep_view(), n as int),
{
    assert(row.deep_view().len() == row.values@.len());
    if n == 0 || n > row.values.len() {
        let none: Vec<VcValue> = Vec::new();
        assert(none.deep_view() =~= seq![]);
        return none;
    }
    let r = crate::remote::part_of(&row.values, 0, n);
    assert(row.deep_view().subrange(0, n as int) =~= row.deep_view().take(n as int));
    r
}

/// The first cells of a row.
fn prefix(row: &VcRow, n: usize) -> (r: Vec<VcValue>)
    ensures
        r.deep_view() == first_cells(row.deep_view(), n as int),
{
    let m = row.deep_len();
    let k: usize = if n > m {
        m
    } else {
        n
    };
    let r = crate::remote::part_of(&row.values, 0, k);
    assert(r.deep_view() =~= first_cells(row.deep_view(), n as int));
    r
}

impl VcRow {
    /// The number of cells.
    fn deep_len(&self) -> (r: usize)
        ensures
            r == self.deep_view().len(),
            r == self.values@.len(),
    {
        self.values.len()
    }
}

/// Does a row start with these cells?
pub open spec fn starts_with(row: RowModel, pk: RowModel) -> bool {
    row.len() >= pk.len() && row.take(pk.len() as int) == pk
}

/// The first row from place `i` on that starts with these cells.
pub open spec fn row_at(rows: Seq<RowModel>, pk: RowModel, i: int) -> Option<int>
    decreases rows.len() - i,
{
    if i >= rows.len() {
        None
    } else if starts_with(rows[i], pk) {
        Some(i)
    } else {
        row_at(rows, pk, i + 1)
    }
}

/// The rows with one more, in place of the one with its key.
pub open spec fn rows_with(rows: Seq<RowModel>, row: RowModel, pk: RowModel) -> Seq<RowModel> {
    match row_at(rows, pk, 0) {
        Some(i) => rows.update(i, row),
        None => rows.push(row),
    }
}

fn find_row(rows: &Vec<VcRow>, pk: &Vec<VcValue>) -> (r: Option<usize>)
    ensures
        match row_at(rows.deep_view(), pk.deep_view(), 0) {
            Some(i) => r matches Some(k) && k == i && k < rows@.len(),
            None => r is None,
        },
{
    let ghost s = rows.deep_view();
    let ghost k = pk.deep_view();
    assert(k.len() == pk@.len());
    let mut i: usize = 0;
    while i < rows.len()
        invariant
            i <= rows@.len(),
            s == rows.deep_view(),
            k == pk.deep_view(),
            k.len() == pk@.len(),
            row_at(s, k, i as int) == row_at(s, k, 0),
        decreases rows.len() - i,
    {
        assert(s[i as int] == rows@[i as int].deep_view());
        if rows[i].deep_len() >= pk.len() {
            let head = crate::remote::part_of(&rows[i].values, 0, pk.len());
            assert(head.deep_view() =~= s[i as int].take(k.len() as int));
            if head.same(pk) {
                return Some(i);
            }
        }
        i = i + 1;
    }
    None
}

fn put_row(rows: &mut Vec<VcRow>, row: VcRow, pk: &Vec<VcValue>)
    ensures
        final(rows).deep_view() == rows_with(
            old(rows).deep_view(),
            row.deep_view(),
            pk.deep_view(),
        ),
{
    let ghost s = rows.deep_view();
    let ghost x = row.deep_view();
    match find_row(rows, pk) {
        Some(i) => {
            rows[i] = row;
            assert(rows.deep_view() =~= s.update(i as int, x));
        },
        None => {
            rows.push(row);
            assert(rows.deep_view() =~= s.push(x));
        },
    }
}

/// The first row from place `i` on whose first cells are the key.
pub open spec fn keyed_from(rows: Seq<RowModel>, n: int, pk: RowModel, i: int) -> Option<RowModel>
    decreases rows.len() - i,
{
    if i >= rows.len() {
        None
    } else if first_cells(rows[i], n) == pk {
        Some(rows[i])
    } else {
        keyed_from(rows, n, pk, i + 1)
    }
}

/// The row of a key.
pub open spec fn row_of_key<T: VersionedRow>(rows: Seq<RowModel>, pk: RowModel) -> Option<T::Model> {
    match keyed_from(rows, T::pk_model().len() as int, pk, 0) {
        Some(row) => T::parsed(row),
        None => None,
    }
}

fn read_key<T: VersionedRow>(rows: &Vec<VcRow>, pk: &Vec<VcValue>) -> (r: Option<T>)
    ensures
        match row_of_key::<T>(rows.deep_view(), pk.deep_view()) {
            Some(m) => r matches Some(v) && v.model() == m,
            None => r is None,
        },
{
    let ghost s = rows.deep_view();
    let ghost k = pk.deep_view();
    let key = T::pk();
    let n = key.len();
    assert(key.deep_view().len() == key@.len());
    let mut i: usize = 0;
    while i < rows.len()
        invariant
            i <= rows@.len(),
            s == rows.deep_view(),
            k == pk.deep_view(),
            n == T::pk_model().len(),
            keyed_from(s, n as int, k, i as int) == keyed_from(s, n as int, k, 0),
        decreases rows.len() - i,
    {
        assert(s[i as int] == rows@[i as int].deep_view());
        if prefix(&rows[i], n).same(pk) {
            return match T::from_row(&rows[i]) {
                Ok(v) => Some(v),
                Err(_) => None,
            };
        }
        i = i + 1;
    }
    None
}

/// The rows that can be read.
pub open spec fn readable<T: VersionedRow>(rows: Seq<RowModel>) -> Seq<T::Model>
    decreases rows.len(),
{
    if rows.len() == 0 {
        seq![]
    } else {
        let before = readable::<T>(rows.drop_last());
        match T::parsed(rows.last()) {
            Some(m) => before.push(m),
            None => before,
        }
    }
}

/// What rows stand for.
pub open spec fn models<T: VersionedRow>(rows: Seq<T>) -> Seq<T::Model> {
    rows.map_values(|r: T| r.model())
}

fn read_rows<T: VersionedRow>(rows: &Vec<VcRow>) -> (r: Vec<T>)
    ensures
        models::<T>(r@) == readable::<T>(rows.deep_view()),
{
    let ghost s = rows.deep_view();
    let mut out: Vec<T> = Vec::new();
    let mut i: usize = 0;
    assert(s.take(0) =~= seq![]);
    assert(models::<T>(out@) =~= seq![]);
    while i < rows.len()
        invariant
            i <= rows@.len(),
            s == rows.deep_view(),
            models::<T>(out@) == readable::<T>(s.take(i as int)),
        decreases rows.len() - i,
    {
        let ghost before = out@;
        proof {
            assert(s[i as int] == rows@[i as int].deep_view());
            assert(s.take(i + 1).drop_last() =~= s.take(i as int));
        }
        match T::from_row(&rows[i]) {
            Ok(v) => {
                let ghost m = v.model();
                out.push(v);
                assert(models::<T>(out@) =~= models::<T>(before).push(m));
            },
            Err(_) => {},
        }
        i = i + 1;
    }
    assert(s.take(i as int) =~= s);
    out
}

// ---------------------------------------------------------------------------
// Differences
// ---------------------------------------------------------------------------

/// How a row differs.
#[derive(Debug, Clone, Copy, PartialEq, Eq, Structural)]
pub enum DiffKind {
    Added,
    Removed,
    Modified,
}

/// A row that differs.
#[derive(Debug, Clone)]
pub struct RowDiff<T> {
    pub kind: DiffKind,
    pub row: T,
}

/// What differences stand for.
pub open spec fn diff_models<T: VersionedRow>(diffs: Seq<RowDiff<T>>) -> Seq<(DiffKind, T::Model)> {
    diffs.map_values(|d: RowDiff<T>| (d.kind, d.row.model()))
}

/// Rows by their first cells; later rows win.
pub open spec fn by_first(rows: Seq<RowModel>, n: int) -> Map<RowModel, RowModel>
    decreases rows.len(),
{
    if rows.len() == 0 {
        Map::empty()
    } else {
        by_first(rows.drop_last(), n).insert(first_cells(rows.last(), n), rows.last())
    }
}

/// A difference, where its row can be read.
pub open spec fn one_diff<T: VersionedRow>(kind: DiffKind, row: RowModel) -> Seq<(
    DiffKind,
    T::Model,
)> {
    match T::parsed(row) {
        Some(m) => seq![(kind, m)],
        None => seq![],
    }
}

/// The changed and the removed row of a key.
pub open spec fn left_diff<T: VersionedRow>(
    from: Map<RowModel, RowModel>,
    to: Map<RowModel, RowModel>,
    k: RowModel,
) -> Seq<(DiffKind, T::Model)> {
    if !to.dom().contains(k) {
        one_diff::<T>(DiffKind::Removed, from[k])
    } else if from[k] != to[k] {
        one_diff::<T>(DiffKind::Modified, to[k])
    } else {
        seq![]
    }
}

/// The added row of a key.
pub open spec fn right_diff<T: VersionedRow>(
    from: Map<RowModel, RowModel>,
    to: Map<RowModel, RowModel>,
    k: RowModel,
) -> Seq<(DiffKind, T::Model)> {
    if from.dom().contains(k) {
        seq![]
    } else {
        one_diff::<T>(DiffKind::Added, to[k])
    }
}

/// The changed and the removed rows of a list of keys.
pub open spec fn left_diffs<T: VersionedRow>(
    from: Map<RowModel, RowModel>,
    to: Map<RowModel, RowModel>,
    keys: Seq<RowModel>,
) -> Seq<(DiffKind, T::Model)>
    decreases keys.len(),
{
    if keys.len() == 0 {
        seq![]
    } else {
        left_diffs::<T>(from, to, keys.drop_last()) + left_diff::<T>(from, to, keys.last())
    }
}

/// The added rows of a list of keys.
pub open spec fn right_diffs<T: VersionedRow>(
    from: Map<RowModel, RowModel>,
    to: Map<RowModel, RowModel>,
    keys: Seq<RowModel>,
) -> Seq<(DiffKind, T::Model)>
    decreases keys.len(),
{
    if keys.len() == 0 {
        seq![]
    } else {
        right_diffs::<T>(from, to, keys.drop_last()) + right_diff::<T>(from, to, keys.last())
    }
}

/// How many cells a difference is told by.
pub open spec fn diff_width(n: nat) -> int {
    if n == 0 {
        1
    } else {
        n as int
    }
}

/// The differences of two lists of rows: the changed and removed rows by key, then
/// the added ones.
pub open spec fn row_diffs<T: VersionedRow>(from: Seq<RowModel>, to: Seq<RowModel>) -> Seq<(
    DiffKind,
    T::Model,
)> {
    let n = diff_width(T::pk_model().len());
    let f = by_first(from, n);
    let t = by_first(to, n);
    left_diffs::<T>(f, t, crate::merge::in_order(f.dom())) + right_diffs::<T>(
        f,
        t,
        crate::merge::in_order(t.dom()),
    )
}

fn map_rows(rows: &Vec<VcRow>, n: usize) -> (r: AssocMap<Vec<VcValue>, VcRow>)
    ensures
        r.deep_view() == by_first(rows.deep_view(), n as int),
{
    let ghost s = rows.deep_view();
    let mut out: AssocMap<Vec<VcValue>, VcRow> = AssocMap::new();
    let mut i: usize = 0;
    assert(s.take(0) =~= seq![]);
    while i < rows.len()
        invariant
            i <= rows@.len(),
            s == rows.deep_view(),
            out.deep_view() == by_first(s.take(i as int), n as int),
        decreases rows.len() - i,
    {
        proof {
            assert(s[i as int] == rows@[i as int].deep_view());
            assert(s.take(i + 1).drop_last() =~= s.take(i as int));
        }
        out.insert(prefix(&rows[i], n), rows[i].dup());
        i = i + 1;
    }
    assert(s.take(i as int) =~= s);
    out
}

fn push_diff<T: VersionedRow>(out: &mut Vec<RowDiff<T>>, kind: DiffKind, row: &VcRow)
    ensures
        diff_models::<T>(final(out)@) == diff_models::<T>(old(out)@) + one_diff::<T>(
            kind,
            row.deep_view(),
        ),
{
    let ghost before = diff_models::<T>(out@);
    match T::from_row(row) {
        Ok(v) => {
            let ghost m = v.model();
            out.push(RowDiff { kind, row: v });
            assert(diff_models::<T>(out@) =~= before + seq![(kind, m)]);
        },
        Err(_) => {
            assert(before + seq![] =~= before);
        },
    }
}

fn diff_rows<T: VersionedRow>(from: &Vec<VcRow>, to: &Vec<VcRow>) -> (r: Vec<RowDiff<T>>)
    ensures
        diff_models::<T>(r@) == row_diffs::<T>(from.deep_view(), to.deep_view()),
{
    let key = T::pk();
    assert(key.deep_view().len() == key@.len());
    let n: usize = if key.len() == 0 {
        1
    } else {
        key.len()
    };
    let left = map_rows(from, n);
    let right = map_rows(to, n);
    let ghost f = left.deep_view();
    let ghost t = right.deep_view();
    let mut out: Vec<RowDiff<T>> = Vec::new();
    let keys = sorted_row_keys(&left);
    let ghost l = keys.deep_view();
    let mut i: usize = 0;
    assert(l.take(0) =~= seq![]);
    assert(diff_models::<T>(out@) =~= seq![]);
    while i < keys.len()
        invariant
            i <= keys@.len(),
            l == keys.deep_view(),
            l.to_set() == f.dom(),
            f == left.deep_view(),
            t == right.deep_view(),
            diff_models::<T>(out@) == left_diffs::<T>(f, t, l.take(i as int)),
        decreases keys.len() - i,
    {
        let ghost before = diff_models::<T>(out@);
        proof {
            assert(l[i as int] == keys@[i as int].deep_view());
            assert(l.to_set().contains(l[i as int]));
            assert(l.take(i + 1).drop_last() =~= l.take(i as int));
            assert(before + seq![] =~= before);
        }
        match left.get(&keys[i]) {
            Some(row) => match right.get(&keys[i]) {
                Some(other) => {
                    if !row.same(other) {
                        push_diff(&mut out, DiffKind::Modified, other);
                    }
                },
                None => {
                    push_diff(&mut out, DiffKind::Removed, row);
                },
            },
            None => {},
        }
        i = i + 1;
    }
    assert(l.take(i as int) =~= l);
    let ghost head = diff_models::<T>(out@);
    let added = sorted_row_keys(&right);
    let ghost a = added.deep_view();
    let mut j: usize = 0;
    assert(a.take(0) =~= seq![]);
    assert(head + right_diffs::<T>(f, t, a.take(0)) =~= head);
    while j < added.len()
        invariant
            j <= added@.len(),
            a == added.deep_view(),
            a.to_set() == t.dom(),
            f == left.deep_view(),
            t == right.deep_view(),
            diff_models::<T>(out@) == head + right_diffs::<T>(f, t, a.take(j as int)),
        decreases added.len() - j,
    {
        let ghost before = diff_models::<T>(out@);
        let ghost done = right_diffs::<T>(f, t, a.take(j as int));
        proof {
            assert(a[j as int] == added@[j as int].deep_view());
            assert(a.to_set().contains(a[j as int]));
            assert(a.take(j + 1).drop_last() =~= a.take(j as int));
            assert(before + seq![] =~= before);
        }
        if !left.contains(&added[j]) {
            match right.get(&added[j]) {
                Some(row) => {
                    push_diff(&mut out, DiffKind::Added, row);
                },
                None => {},
            }
        }
        proof {
            let more = right_diff::<T>(f, t, a[j as int]);
            assert(diff_models::<T>(out@) =~= before + more);
            assert(head + (done + more) =~= (head + done) + more);
        }
        j = j + 1;
    }
    assert(a.take(j as int) =~= a);
    out
}

// ---------------------------------------------------------------------------
// Databases and handles
// ---------------------------------------------------------------------------

/// A versioned database.
pub struct VersionedDb {
    pub store: VcStore,
}

impl DeepView for VersionedDb {
    type V = StoreModel;

    open spec fn deep_view(&self) -> StoreModel {
        self.store.deep_view()
    }
}

impl Dup for VersionedDb {
    fn dup(&self) -> (r: Self) {
        VersionedDb { store: self.store.dup() }
    }
}

impl VersionedDb {
    pub fn new(branch: &str) -> (r: VersionResult<Self>)
        ensures
            match branch_text(branch@) {
                Some(_) => r matches Ok(d) && d.deep_view() == crate::staging::new_store(branch@),
                None => r matches Err(e) && e.deep_view() == Fault::BranchNotFound(branch@),
            },
    {
        match BranchName::borrowed(branch) {
            Ok(_) => Ok(VersionedDb { store: VcStore::new(branch) }),
            Err(e) => Err(e),
        }
    }

    pub fn store(&self) -> (r: &VcStore)
        ensures
            *r == self.store,
    {
        &self.store
    }

    pub fn store_mut(&mut self) -> (r: &mut VcStore)
        ensures
            *r == old(self).store,
            final(self).store == *final(r),
    {
        &mut self.store
    }

    /// The current branch; none while detached.
    pub fn branch_name(&self) -> (r: Option<&str>)
        ensures
            match r {
                Some(b) => self.deep_view().detached is None && b@ == self.deep_view().head,
                None => self.deep_view().detached is Some,
            },
    {
        self.store.active_branch()
    }

    pub fn create_branch(&mut self, name: BranchName) -> (r: OrmResult<()>)
        ensures
            ({
                let (s, out) = crate::staging::branched(old(self).deep_view(), name@);
                final(self).deep_view() == s && crate::model::outcome(r) == lifted(out)
            }),
    {
        lift(self.store.create_branch(name.as_str()))
    }

    pub fn checkout(&mut self, name: BranchName) -> (r: OrmResult<()>)
        ensures
            ({
                let (s, out) = crate::staging::checked_out(old(self).deep_view(), name@);
                final(self).deep_view() == s && crate::model::outcome(r) == lifted(out)
            }),
    {
        lift(self.store.checkout(name.as_str()))
    }

    /// A handle to a table.
    pub fn table<T: VersionedRow>(&mut self) -> (r: TableHandle<'_, T>)
        ensures
            *r.db == *old(self),
            *final(self) == *final(r.db),
    {
        TableHandle { db: self, marker: PhantomData }
    }

    /// A handle to a branch that exists.
    pub fn branch_handle(&mut self, name: BranchName) -> (r: OrmResult<BranchHandle<'_>>)
        ensures
            match r {
                Ok(h) => old(self).deep_view().branches.contains(name@) && h.name@ == name@ && *h.db
                    == *old(self) && *final(self) == *final(h.db),
                Err(e) => !old(self).deep_view().branches.contains(name@) && e.deep_view()
                    == of_version(VersionError::BranchNotFound(name@)) && *final(self) == *old(self),
            },
    {
        if self.store.branches.contains(name.as_str()) {
            Ok(BranchHandle { db: self, name })
        } else {
            let text = name.to_string();
            Err(OrmError::from_version(VersionError::BranchNotFound(text)))
        }
    }

    /// Commit what is staged.
    pub fn commit(&mut self, msg: &str) -> (r: OrmResult<CommitId>)
        ensures
            ({
                let (s, out) = crate::staging::committed(
                    old(self).deep_view(),
                    msg@,
                    None,
                    false,
                    false,
                );
                final(self).deep_view() == s && crate::model::outcome(r) == lifted(out)
            }),
    {
        lift(self.store.dolt_commit(msg, None, false, false))
    }

    /// Stage all changes and commit them.
    pub fn commit_all(&mut self, msg: &str) -> (r: OrmResult<CommitId>)
        ensures
            ({
                let (s, out) = crate::staging::committed(
                    old(self).deep_view(),
                    msg@,
                    None,
                    true,
                    false,
                );
                final(self).deep_view() == s && crate::model::outcome(r) == lifted(out)
            }),
    {
        lift(self.store.dolt_commit(msg, None, true, false))
    }

    /// The commit at the head.
    pub fn head(&self) -> (r: Option<CommitId>)
        ensures
            r.deep_view() == crate::staging::head_of(self.deep_view()),
    {
        self.store.head_commit()
    }
}

/// A handle to a branch.
pub struct BranchHandle<'a> {
    pub db: &'a mut VersionedDb,
    pub name: BranchName,
}

impl<'a> BranchHandle<'a> {
    /// What the database stands for now.
    pub open spec fn now(&self) -> StoreModel {
        self.db.deep_view()
    }

    pub fn name(&self) -> (r: &str)
        ensures
            r@ == self.name@,
    {
        self.name.as_str()
    }

    /// Go to the branch.
    pub fn checkout(&mut self) -> (r: OrmResult<()>)
        ensures
            ({
                let (s, out) = crate::staging::checked_out(old(self).now(), old(self).name@);
                final(self).now() == s && crate::model::outcome(r) == lifted(out)
            }),
            final(self).name == old(self).name,
            *final(final(self).db) == *final(old(self).db),
    {
        let name = self.name.to_string();
        lift(self.db.store.checkout(name.as_str()))
    }

    /// A handle to a table.
    pub fn table<T: VersionedRow>(&mut self) -> (r: TableHandle<'_, T>)
        ensures
            *r.db == *old(self).db,
            *final(self).db == *final(r.db),
            final(self).name == old(self).name,
            *final(final(self).db) == *final(old(self).db),
    {
        self.db.table()
    }

    /// The commit at the head.
    pub fn head(&self) -> (r: Option<CommitId>)
        ensures
            r.deep_view() == crate::staging::head_of(self.now()),
    {
        self.db.head()
    }
}

/// A handle to a table.
pub struct TableHandle<'a, T: VersionedRow> {
    pub db: &'a mut VersionedDb,
    pub marker: PhantomData<T>,
}

/// The working rows of a table.
pub open spec fn rows_now<T: VersionedRow>(s: StoreModel) -> Seq<RowModel> {
    match crate::merge::lookup(s.work, T::table_model()) {
        Some(snap) => snap.rows,
        None => seq![],
    }
}

/// The rows of a table at a commit.
pub open spec fn rows_at<T: VersionedRow>(s: StoreModel, at: Seq<u8>) -> Seq<RowModel> {
    match crate::merge::lookup(
        crate::remote_wire::tables_at(s.snapshots, at),
        T::table_model(),
    ) {
        Some(snap) => snap.rows,
        None => seq![],
    }
}

/// The statement of a table: its columns by name.
pub open spec fn statement_of<T: VersionedRow>() -> Seq<char> {
    "CREATE TABLE "@ + T::table_model() + " ("@ + crate::text::joined(T::columns_model(), ", "@)
        + ")"@
}

/// The table comes under version control.
pub open spec fn with_type<T: VersionedRow>(s: StoreModel) -> StoreModel {
    if s.tables.contains(T::table_model()) {
        s
    } else {
        crate::staging::with_table(s, T::table_model())
    }
}

/// A repository after a row was put into its table.
pub open spec fn inserted<T: VersionedRow>(s: StoreModel, m: T::Model) -> StoreModel {
    let row = T::cells(m);
    crate::staging::worked(
        with_type::<T>(s),
        T::table_model(),
        SnapModel {
            columns: T::columns_model(),
            pk: T::pk_model(),
            rows: rows_with(
                rows_now::<T>(s),
                row,
                key_cells(row, T::pk_model().len() as int),
            ),
            schema_sql: statement_of::<T>(),
        },
    )
}

/// The rows without those of a key.
pub open spec fn rows_without(rows: Seq<RowModel>, n: int, pk: RowModel) -> Seq<RowModel> {
    rows.filter(|r: RowModel| first_cells(r, n) != pk)
}

/// A repository after the rows of a key were taken out of a table, and whether
/// there were any.
pub open spec fn deleted<T: VersionedRow>(s: StoreModel, pk: RowModel) -> (StoreModel, bool) {
    match crate::merge::lookup(s.work, T::table_model()) {
        None => (s, false),
        Some(snap) => {
            let rows = rows_without(snap.rows, T::pk_model().len() as int, pk);
            if rows.len() == snap.rows.len() {
                (s, false)
            } else {
                (
                    crate::staging::worked(
                        s,
                        T::table_model(),
                        SnapModel {
                            columns: T::columns_model(),
                            pk: T::pk_model(),
                            rows,
                            schema_sql: snap.schema_sql,
                        },
                    ),
                    true,
                )
            }
        },
    }
}

fn filter_rows(rows: &Vec<VcRow>, n: usize, pk: &Vec<VcValue>) -> (r: Vec<VcRow>)
    ensures
        r.deep_view() == rows_without(rows.deep_view(), n as int, pk.deep_view()),
{
    let ghost s = rows.deep_view();
    let ghost p = |r: RowModel| first_cells(r, n as int) != pk.deep_view();
    let mut out: Vec<VcRow> = Vec::new();
    let mut i: usize = 0;
    proof {
        reveal(Seq::filter);
        assert(s.take(0).filter(p) =~= seq![]);
        assert(out.deep_view() =~= seq![]);
    }
    while i < rows.len()
        invariant
            i <= rows@.len(),
            s == rows.deep_view(),
            p == (|r: RowModel| first_cells(r, n as int) != pk.deep_view()),
            out.deep_view() == s.take(i as int).filter(p),
        decreases rows.len() - i,
    {
        proof {
            reveal(Seq::filter);
            assert(s.take(i + 1).drop_last() =~= s.take(i as int));
            assert(s.take(i + 1).last() == rows@[i as int].deep_view());
        }
        let ghost before = out.deep_view();
        if !prefix(&rows[i], n).same(pk) {
            out.push(rows[i].dup());
            assert(out.deep_view() =~= before.push(s[i as int]));
        }
        i = i + 1;
    }
    assert(s.take(i as int) =~= s);
    out
}

fn create_statement<T: VersionedRow>() -> (r: String)
    ensures
        r@ == statement_of::<T>(),
{
    let columns = join(&T::columns(), ", ");
    cat5("CREATE TABLE ", T::table(), " (", columns.as_str(), ")")
}

impl VersionedDb {
    fn working_rows<T: VersionedRow>(&self) -> (r: Vec<VcRow>)
        ensures
            r.deep_view() == rows_now::<T>(self.deep_view()),
    {
        match self.store.work_table(T::table()) {
            Some(snap) => snap.rows.dup(),
            None => {
                let none: Vec<VcRow> = Vec::new();
                assert(none.deep_view() =~= seq![]);
                none
            },
        }
    }

    fn committed_rows<T: VersionedRow>(&self, at: CommitId) -> (r: Vec<VcRow>)
        ensures
            r.deep_view() == rows_at::<T>(self.deep_view(), at@),
    {
        match self.store.table_rows(T::table(), &at) {
            Some(rows) => rows,
            None => {
                let none: Vec<VcRow> = Vec::new();
                assert(none.deep_view() =~= seq![]);
                none
            },
        }
    }

    fn insert_row<T: VersionedRow>(&mut self, value: &T)
        ensures
            final(self).deep_view() == inserted::<T>(old(self).deep_view(), value.model()),
    {
        let mut rows = self.working_rows::<T>();
        if !has_text(&self.store.tables, T::table()) {
            self.store.track_table(T::table());
        }
        put_row(&mut rows, value.into_row(), &value.pk_values());
        self.store.apply_work(T::table(), T::columns(), T::pk(), rows, create_statement::<T>());
    }

    fn delete_rows<T: VersionedRow>(&mut self, pk: &Vec<VcValue>) -> (r: bool)
        ensures
            deleted::<T>(old(self).deep_view(), pk.deep_view()) == (final(self).deep_view(), r),
    {
        let key = T::pk();
        assert(key.deep_view().len() == key@.len());
        let (rows, schema_sql, before) = match self.store.work_table(T::table()) {
            Some(snap) => {
                assert(snap.rows.deep_view().len() == snap.rows@.len());
                (filter_rows(&snap.rows, key.len(), pk), snap.schema_sql.clone(), snap.rows.len())
            },
            None => {
                return false;
            },
        };
        assert(rows.deep_view().len() == rows@.len());
        if rows.len() == before {
            return false;
        }
        self.store.apply_work(T::table(), T::columns(), key, rows, schema_sql);
        true
    }
}

impl<'a, T: VersionedRow> TableHandle<'a, T> {
    /// What the database stands for now.
    pub open spec fn now(&self) -> StoreModel {
        self.db.deep_view()
    }

    /// Put a row into the table, in place of the one with its key.
    pub fn insert(&mut self, value: &T) -> (r: OrmResult<()>)
        ensures
            r is Ok,
            final(self).now() == inserted::<T>(old(self).now(), value.model()),
            *final(final(self).db) == *final(old(self).db),
    {
        self.db.insert_row(value);
        Ok(())
    }

    /// The row of a key.
    pub fn get(&self, pk: &Vec<VcValue>) -> (r: Option<T>)
        ensures
            match row_of_key::<T>(rows_now::<T>(self.now()), pk.deep_view()) {
                Some(m) => r matches Some(v) && v.model() == m,
                None => r is None,
            },
    {
        read_key(&self.db.working_rows::<T>(), pk)
    }

    /// The row of a key at a commit.
    pub fn get_at(&self, pk: &Vec<VcValue>, at: CommitId) -> (r: Option<T>)
        ensures
            match row_of_key::<T>(rows_at::<T>(self.now(), at@), pk.deep_view()) {
                Some(m) => r matches Some(v) && v.model() == m,
                None => r is None,
            },
    {
        read_key(&self.db.committed_rows::<T>(at), pk)
    }

    /// Take the rows of a key out of the table; were there any?
    pub fn delete(&mut self, pk: &Vec<VcValue>) -> (r: bool)
        ensures
            deleted::<T>(old(self).now(), pk.deep_view()) == (final(self).now(), r),
            *final(final(self).db) == *final(old(self).db),
    {
        self.db.delete_rows::<T>(pk)
    }

    /// The rows of the table that can be read.
    pub fn iter(&self) -> (r: Vec<T>)
        ensures
            models::<T>(r@) == readable::<T>(rows_now::<T>(self.now())),
    {
        read_rows(&self.db.working_rows::<T>())
    }

    /// The rows of the table at a commit that can be read.
    pub fn iter_at(&self, at: CommitId) -> (r: Vec<T>)
        ensures
            models::<T>(r@) == readable::<T>(rows_at::<T>(self.now(), at@)),
    {
        read_rows(&self.db.committed_rows::<T>(at))
    }

    /// The number of rows.
    pub fn len(&self) -> (r: usize)
        ensures
            r == rows_now::<T>(self.now()).len(),
    {
        let rows = self.db.working_rows::<T>();
        assert(rows.deep_view().len() == rows@.len());
        rows.len()
    }

    pub fn is_empty(&self) -> (r: bool)
        ensures
            r == (rows_now::<T>(self.now()).len() == 0),
    {
        self.len() == 0
    }

    /// Stage the table.
    pub fn stage(&mut self) -> (r: OrmResult<()>)
        ensures
            ({
                let (s, out) = crate::staging::add_tables(old(self).now(), seq![T::table_model()]);
                final(self).now() == s && crate::model::outcome(r) == lifted(out)
            }),
            *final(final(self).db) == *final(old(self).db),
    {
        let mut names: Vec<&str> = Vec::new();
        names.push(T::table());
        assert(crate::staging::strs(names@) =~= seq![T::table_model()]);
        lift(self.db.store.dolt_add(names.as_slice()))
    }

    /// The differences of the table between two commits.
    pub fn diff_at(&self, from: CommitId, to: CommitId) -> (r: Vec<RowDiff<T>>)
        ensures
            diff_models::<T>(r@) == row_diffs::<T>(
                rows_at::<T>(self.now(), from@),
                rows_at::<T>(self.now(), to@),
            ),
    {
        diff_rows(&self.db.committed_rows::<T>(from), &self.db.committed_rows::<T>(to))
    }

    /// The rows of the table at a commit.
    pub fn history(&self, at: CommitId) -> (r: Vec<T>)
        ensures
            models::<T>(r@) == readable::<T>(rows_at::<T>(self.now(), at@)),
    {
        self.iter_at(at)
    }
}

// ---------------------------------------------------------------------------
// Transactions
// ---------------------------------------------------------------------------

/// A transaction on a database. Its changes go to a draft, which becomes the database
/// when it is committed; a transaction that is dropped leaves the database as it was.
pub struct Transaction<'a> {
    pub db: &'a mut VersionedDb,
    pub draft: VersionedDb,
}

impl<'a> Transaction<'a> {
    /// What the draft stands for now.
    pub open spec fn now(&self) -> StoreModel {
        self.draft.deep_view()
    }

    /// Start from the database as it is.
    pub fn begin(db: &'a mut VersionedDb) -> (r: Self)
        ensures
            r.now() == old(db).deep_view(),
            *r.db == *old(db),
            *final(db) == *final(r.db),
    {
        let draft = db.dup();
        Transaction { db, draft }
    }

    /// A handle to a table of the draft.
    pub fn table<T: VersionedRow>(&mut self) -> (r: TableHandle<'_, T>)
        ensures
            *r.db == old(self).draft,
            final(self).draft == *final(r.db),
            *final(self).db == *old(self).db,
            *final(final(self).db) == *final(old(self).db),
    {
        self.draft.table()
    }

    /// Commit all changes. The draft becomes the database, also where there is nothing
    /// to commit.
    pub fn commit(self, msg: &str) -> (r: OrmResult<CommitId>)
        ensures
            ({
                let (s, out) = crate::staging::committed(self.now(), msg@, None, true, false);
                final(self.db).deep_view() == s && crate::model::outcome(r) == lifted(out)
            }),
    {
        let Transaction { db, draft } = self;
        let mut draft = draft;
        let r = draft.commit_all(msg);
        *db = draft;
        r
    }
}

/// The snapshot of typed rows.
pub fn table_snapshot<T: VersionedRow>(rows: Vec<T>) -> (r: TableSnapshot)
    ensures
        r.deep_view() == (SnapModel {
            columns: T::columns_model(),
            pk: T::pk_model(),
            rows: models::<T>(rows@).map_values(|m: T::Model| T::cells(m)),
            schema_sql: statement_of::<T>(),
        }),
{
    let mut out: Vec<VcRow> = Vec::new();
    let mut i: usize = 0;
    while i < rows.len()
        invariant
            i <= rows@.len(),
            out@.len() == i,
            forall|j: int|
                0 <= j < i ==> (#[trigger] out@[j]).deep_view() == T::cells(rows@[j].model()),
        decreases rows.len() - i,
    {
        out.push(rows[i].into_row());
        i = i + 1;
    }
    assert(out.deep_view() =~= models::<T>(rows@).map_values(|m: T::Model| T::cells(m)));
    TableSnapshot {
        columns: T::columns(),
        pk: T::pk(),
        rows: out,
        schema_sql: create_statement::<T>(),
    }
}

// ---------------------------------------------------------------------------
// Laws
// ---------------------------------------------------------------------------

proof fn lemma_row_at(rows: Seq<RowModel>, pk: RowModel, i: int)
    requires
        0 <= i <= rows.len(),
    ensures
        match row_at(rows, pk, i) {
            Some(k) => i <= k < rows.len() && starts_with(rows[k], pk) && (forall|j: int|
                i <= j < k ==> !starts_with(#[trigger] rows[j], pk)),
            None => forall|j: int| i <= j < rows.len() ==> !starts_with(#[trigger] rows[j], pk),
        },
    decreases rows.len() - i,
{
    if i < rows.len() && !starts_with(rows[i], pk) {
        lemma_row_at(rows, pk, i + 1);
    }
}

proof fn lemma_keyed(rows: Seq<RowModel>, n: int, pk: RowModel, i: int, k: int)
    requires
        0 <= i <= k < rows.len(),
        first_cells(rows[k], n) == pk,
        forall|j: int| i <= j < k ==> first_cells(#[trigger] rows[j], n) != pk,
    ensures
        keyed_from(rows, n, pk, i) == Some(rows[k]),
    decreases k - i,
{
    if i < k {
        lemma_keyed(rows, n, pk, i + 1, k);
    }
}

proof fn lemma_unkeyed(rows: Seq<RowModel>, n: int, pk: RowModel, i: int)
    requires
        0 <= i <= rows.len(),
        forall|j: int| i <= j < rows.len() ==> first_cells(#[trigger] rows[j], n) != pk,
    ensures
        keyed_from(rows, n, pk, i) is None,
    decreases rows.len() - i,
{
    if i < rows.len() {
        lemma_unkeyed(rows, n, pk, i + 1);
    }
}

proof fn lemma_keys_agree(row: RowModel, n: int, pk: RowModel)
    requires
        pk.len() == n,
    ensures
        starts_with(row, pk) == (first_cells(row, n) == pk),
{
}

/// A row that was put into a table is read back by its key.
pub proof fn law_inserted_row_is_read_back<T: VersionedRow>(s: StoreModel, m: T::Model)
    requires
        T::pk_model().len() <= T::cells(m).len(),
    ensures
        row_of_key::<T>(
            rows_now::<T>(inserted::<T>(s, m)),
            T::cells(m).take(T::pk_model().len() as int),
        ) == T::parsed(T::cells(m)),
{
    let n = T::pk_model().len() as int;
    let row = T::cells(m);
    let pk = row.take(n);
    let rows = rows_now::<T>(s);
    assert(key_cells(row, n) =~= pk);
    let after = rows_with(rows, row, pk);
    assert(rows_now::<T>(inserted::<T>(s, m)) == after);
    lemma_row_at(rows, pk, 0);
    assert forall|r: RowModel| #[trigger] starts_with(r, pk) == (first_cells(r, n) == pk) by {
        lemma_keys_agree(r, n, pk);
    }
    assert(starts_with(row, pk));
    match row_at(rows, pk, 0) {
        Some(k) => {
            assert forall|j: int| 0 <= j < k implies first_cells(#[trigger] after[j], n) != pk by {
                assert(!starts_with(rows[j], pk));
            }
            lemma_keyed(after, n, pk, 0, k);
        },
        None => {
            let k = rows.len() as int;
            assert forall|j: int| 0 <= j < k implies first_cells(#[trigger] after[j], n) != pk by {
                assert(!starts_with(rows[j], pk));
            }
            lemma_keyed(after, n, pk, 0, k);
        },
    }
}

proof fn lemma_keyed_same(a: Seq<RowModel>, b: Seq<RowModel>, n: int, pk: RowModel, i: int)
    requires
        0 <= i <= a.len(),
        a.len() <= b.len() <= a.len() + 1,
        forall|j: int| 0 <= j < a.len() ==> (#[trigger] a[j]) == b[j] || (first_cells(a[j], n) != pk
            && first_cells(b[j], n) != pk),
        b.len() > a.len() ==> first_cells(b.last(), n) != pk,
    ensures
        keyed_from(a, n, pk, i) == keyed_from(b, n, pk, i),
    decreases a.len() - i,
{
    if i < a.len() {
        assert(a[i] == b[i] || (first_cells(a[i], n) != pk && first_cells(b[i], n) != pk));
        lemma_keyed_same(a, b, n, pk, i + 1);
    } else if b.len() > a.len() {
        lemma_unkeyed(b, n, pk, i);
    }
}

/// Putting a row into a table leaves the rows of other keys as they are.
pub proof fn law_insert_keeps_other_keys<T: VersionedRow>(s: StoreModel, m: T::Model, other: RowModel)
    requires
        T::pk_model().len() <= T::cells(m).len(),
        other != T::cells(m).take(T::pk_model().len() as int),
    ensures
        row_of_key::<T>(rows_now::<T>(inserted::<T>(s, m)), other) == row_of_key::<T>(
            rows_now::<T>(s),
            other,
        ),
{
    let n = T::pk_model().len() as int;
    let row = T::cells(m);
    let pk = row.take(n);
    let rows = rows_now::<T>(s);
    assert(key_cells(row, n) =~= pk);
    let after = rows_with(rows, row, pk);
    lemma_row_at(rows, pk, 0);
    match row_at(rows, pk, 0) {
        Some(k) => {
            lemma_keys_agree(rows[k], n, pk);
        },
        None => {},
    }
    lemma_keyed_same(rows, after, n, other, 0);
}

/// A key whose rows were taken out of a table is not found any more.
pub proof fn law_deleted_key_is_gone<T: VersionedRow>(s: StoreModel, pk: RowModel)
    ensures
        row_of_key::<T>(rows_now::<T>(deleted::<T>(s, pk).0), pk) is None,
{
    broadcast use vstd::seq_lib::group_filter_ensures;

    let n = T::pk_model().len() as int;
    let rows = rows_now::<T>(s);
    let p = |r: RowModel| first_cells(r, n) != pk;
    let left = rows_without(rows, n, pk);
    assert(left == rows.filter(p));
    assert forall|j: int| 0 <= j < left.len() implies first_cells(#[trigger] left[j], n) != pk by {
        assert(p(left[j]));
    }
    lemma_unkeyed(left, n, pk, 0);
    if s.work.dom().contains(T::table_model()) {
        if left.len() == rows.len() {
            assert forall|j: int| 0 <= j < rows.len() implies first_cells(#[trigger] rows[j], n)
                != pk by {
                if !p(rows[j]) {
                    lemma_filter_shorter(rows, p, j);
                }
            }
            lemma_unkeyed(rows, n, pk, 0);
        }
    } else {
        lemma_unkeyed(rows, n, pk, 0);
    }
}

proof fn lemma_filter_shorter<A>(s: Seq<A>, p: spec_fn(A) -> bool, j: int)
    requires
        0 <= j < s.len(),
        !p(s[j]),
    ensures
        s.filter(p).len() < s.len(),
    decreases s.len(),
{
    reveal(Seq::filter);
    broadcast use vstd::seq_lib::group_filter_ensures;

    let t = s.drop_last();
    assert(t.filter(p).len() <= t.len());
    if j < t.len() {
        assert(t[j] == s[j]);
        lemma_filter_shorter(t, p, j);
    }
}

/// Is a repository as another but for its working set, its tables and its stage?
pub open spec fn same_but_work(s: StoreModel, t: StoreModel) -> bool {
    t == (StoreModel {
        work: t.work,
        tables: t.tables,
        unstaged: t.unstaged,
        staged: t.staged,
        ..s
    })
}

/// Typed changes touch the working set, the tables and the stage alone.
pub proof fn law_typed_changes_touch_work_alone<T: VersionedRow>(
    s: StoreModel,
    m: T::Model,
    pk: RowModel,
)
    ensures
        same_but_work(s, inserted::<T>(s, m)),
        same_but_work(s, deleted::<T>(s, pk).0),
        same_but_work(s, crate::staging::add_tables(s, seq![T::table_model()]).0),
{
}

/// Does a list hold a row under these first cells?
pub open spec fn row_stands(rows: Seq<RowModel>, n: int, key: RowModel, row: RowModel) -> bool {
    rows.contains(row) && row.take(n) == key
}

/// Does each row have first cells of its own?
pub open spec fn first_cells_differ(rows: Seq<RowModel>, n: int) -> bool {
    &&& forall|i: int| 0 <= i < rows.len() ==> (#[trigger] rows[i]).len() >= n
    &&& forall|i: int, j: int|
        0 <= i < j < rows.len() ==> (#[trigger] rows[i]).take(n) != (#[trigger] rows[j]).take(n)
}

/// Is what stands under a key not the same in two lists?
pub open spec fn key_differs(
    from: Seq<RowModel>,
    to: Seq<RowModel>,
    n: int,
    key: RowModel,
) -> bool {
    exists|row: RowModel| #[trigger]
        row_stands(from, n, key, row) != row_stands(to, n, key, row)
}

/// Does a difference tell how two lists differ under a key: the row that only the second
/// has, the row that only the first has, or the second's row where both have another?
pub open spec fn tells_change<T: VersionedRow>(
    from: Seq<RowModel>,
    to: Seq<RowModel>,
    n: int,
    key: RowModel,
    d: (DiffKind, T::Model),
) -> bool {
    match d.0 {
        DiffKind::Added => {
            &&& forall|r: RowModel| !#[trigger] row_stands(from, n, key, r)
            &&& exists|r: RowModel| #[trigger]
                row_stands(to, n, key, r) && T::parsed(r) == Some(d.1)
        },
        DiffKind::Removed => {
            &&& forall|r: RowModel| !#[trigger] row_stands(to, n, key, r)
            &&& exists|r: RowModel| #[trigger]
                row_stands(from, n, key, r) && T::parsed(r) == Some(d.1)
        },
        DiffKind::Modified => exists|a: RowModel, b: RowModel| #[trigger]
            row_stands(from, n, key, a) && #[trigger] row_stands(to, n, key, b) && a != b
                && T::parsed(b) == Some(d.1),
    }
}

proof fn lemma_by_first(rows: Seq<RowModel>, n: int, key: RowModel)
    requires
        n >= 0,
        first_cells_differ(rows, n),
    ensures
        by_first(rows, n).dom().finite(),
        by_first(rows, n).dom().contains(key) ==> row_stands(rows, n, key, by_first(rows, n)[key]),
        forall|r: RowModel| #[trigger]
            row_stands(rows, n, key, r) ==> by_first(rows, n).dom().contains(key) && by_first(
                rows,
                n,
            )[key] == r,
    decreases rows.len(),
{
    if rows.len() > 0 {
        let d = rows.drop_last();
        let last = rows.last();
        assert forall|i: int| 0 <= i < d.len() implies (#[trigger] d[i]).len() >= n by {
            assert(d[i] == rows[i]);
        }
        assert forall|i: int, j: int| 0 <= i < j < d.len() implies (#[trigger] d[i]).take(n) != (
        #[trigger] d[j]).take(n) by {
            assert(d[i] == rows[i] && d[j] == rows[j]);
        }
        lemma_by_first(d, n, key);
        assert(rows[rows.len() - 1] == last);
        assert(first_cells(last, n) == last.take(n)) by {
            if n == last.len() {
                assert(last.take(n) =~= last);
            }
        }
        if by_first(d, n).dom().contains(key) {
            let r = by_first(d, n)[key];
            let k = choose|k: int| 0 <= k < d.len() && d[k] == r;
            assert(rows[k] == r);
        }
        assert forall|r: RowModel| #[trigger] row_stands(rows, n, key, r) implies by_first(
            rows,
            n,
        ).dom().contains(key) && by_first(rows, n)[key] == r by {
            let k = choose|k: int| 0 <= k < rows.len() && rows[k] == r;
            if k < d.len() {
                assert(d[k] == r);
                assert(row_stands(d, n, key, r));
                assert(rows[k].take(n) != rows[rows.len() - 1].take(n));
            }
        }
    }
}

/// Does what stands under a key of the first map differ from the second?
spec fn left_differs(
    from: Map<RowModel, RowModel>,
    to: Map<RowModel, RowModel>,
) -> spec_fn(RowModel) -> bool {
    |k: RowModel| !to.dom().contains(k) || from[k] != to[k]
}

spec fn right_differs(from: Map<RowModel, RowModel>) -> spec_fn(RowModel) -> bool {
    |k: RowModel| !from.dom().contains(k)
}

proof fn lemma_left_diffs<T: VersionedRow>(
    from: Map<RowModel, RowModel>,
    to: Map<RowModel, RowModel>,
    keys: Seq<RowModel>,
)
    requires
        forall|k: RowModel| #[trigger] from.dom().contains(k) ==> T::parsed(from[k]) is Some,
        forall|k: RowModel| #[trigger] to.dom().contains(k) ==> T::parsed(to[k]) is Some,
        forall|i: int| 0 <= i < keys.len() ==> from.dom().contains(#[trigger] keys[i]),
    ensures
        ({
            let d = left_diffs::<T>(from, to, keys);
            let told = keys.filter(left_differs(from, to));
            &&& d.len() == told.len()
            &&& forall|i: int|
                0 <= i < d.len() ==> if to.dom().contains(told[i]) {
                    #[trigger] d[i] == (DiffKind::Modified, T::parsed(to[told[i]])->0)
                } else {
                    d[i] == (DiffKind::Removed, T::parsed(from[told[i]])->0)
                }
        }),
    decreases keys.len(),
{
    reveal(Seq::filter);
    if keys.len() > 0 {
        let rest = keys.drop_last();
        assert forall|i: int| 0 <= i < rest.len() implies from.dom().contains(
            #[trigger] rest[i],
        ) by {
            assert(rest[i] == keys[i]);
        }
        lemma_left_diffs::<T>(from, to, rest);
        assert(from.dom().contains(keys[keys.len() - 1]));
    }
}

proof fn lemma_right_diffs<T: VersionedRow>(
    from: Map<RowModel, RowModel>,
    to: Map<RowModel, RowModel>,
    keys: Seq<RowModel>,
)
    requires
        forall|k: RowModel| #[trigger] to.dom().contains(k) ==> T::parsed(to[k]) is Some,
        forall|i: int| 0 <= i < keys.len() ==> to.dom().contains(#[trigger] keys[i]),
    ensures
        ({
            let d = right_diffs::<T>(from, to, keys);
            let told = keys.filter(right_differs(from));
            &&& d.len() == told.len()
            &&& forall|i: int|
                0 <= i < d.len() ==> #[trigger] d[i] == (
                    DiffKind::Added,
                    T::parsed(to[told[i]])->0,
                )
        }),
    decreases keys.len(),
{
    reveal(Seq::filter);
    if keys.len() > 0 {
        let rest = keys.drop_last();
        assert forall|i: int| 0 <= i < rest.len() implies to.dom().contains(#[trigger] rest[i]) by {
            assert(rest[i] == keys[i]);
        }
        lemma_right_diffs::<T>(from, to, rest);
        assert(to.dom().contains(keys[keys.len() - 1]));
    }
}

proof fn lemma_filtered<A>(s: Seq<A>, p: spec_fn(A) -> bool)
    ensures
        forall|x: A| #[trigger] s.filter(p).contains(x) <==> s.contains(x) && p(x),
        s.no_duplicates() ==> s.filter(p).no_duplicates(),
{
    crate::creds::lemma_filter_distinct(s, p);
}

/// The differences of two lists, each of whose rows can be read and has a key of its own,
/// name every key under which the lists do not hold the same row, each once, and tell how
/// it differs; the list of those keys is given back. There is no difference exactly where
/// both lists hold the same rows.
pub proof fn law_diffs_tell_every_change<T: VersionedRow>(
    from: Seq<RowModel>,
    to: Seq<RowModel>,
    n: int,
) -> (keys: Seq<RowModel>)
    requires
        n == (if T::pk_model().len() == 0 {
            1
        } else {
            T::pk_model().len() as int
        }),
        first_cells_differ(from, n),
        first_cells_differ(to, n),
        forall|i: int| 0 <= i < from.len() ==> T::parsed(#[trigger] from[i]) is Some,
        forall|i: int| 0 <= i < to.len() ==> T::parsed(#[trigger] to[i]) is Some,
    ensures
        ({
            let d = row_diffs::<T>(from, to);
            &&& keys.len() == d.len()
            &&& keys.no_duplicates()
            &&& forall|k: RowModel| #[trigger] keys.contains(k) <==> key_differs(from, to, n, k)
            &&& forall|i: int|
                0 <= i < d.len() ==> tells_change::<T>(from, to, n, keys[i], #[trigger] d[i])
            &&& d.len() == 0 <==> forall|r: RowModel|
                from.contains(r) <==> #[trigger] to.contains(r)
        }),
{
    let f = by_first(from, n);
    let t = by_first(to, n);
    let d = row_diffs::<T>(from, to);
    assert forall|k: RowModel| #[trigger] f.dom().contains(k) implies T::parsed(f[k]) is Some by {
        lemma_by_first(from, n, k);
        let i = choose|i: int| 0 <= i < from.len() && from[i] == f[k];
        assert(T::parsed(from[i]) is Some);
    }
    assert forall|k: RowModel| #[trigger] t.dom().contains(k) implies T::parsed(t[k]) is Some by {
        lemma_by_first(to, n, k);
        let i = choose|i: int| 0 <= i < to.len() && to[i] == t[k];
        assert(T::parsed(to[i]) is Some);
    }
    lemma_by_first(from, n, seq![]);
    lemma_by_first(to, n, seq![]);
    let fl = crate::merge::in_order(f.dom());
    let tl = crate::merge::in_order(t.dom());
    crate::merge::lemma_in_order(f.dom());
    crate::merge::lemma_in_order(t.dom());
    assert forall|i: int| 0 <= i < fl.len() implies f.dom().contains(#[trigger] fl[i]) by {
        assert(fl.contains(fl[i]));
    }
    assert forall|i: int| 0 <= i < tl.len() implies t.dom().contains(#[trigger] tl[i]) by {
        assert(tl.contains(tl[i]));
    }
    lemma_left_diffs::<T>(f, t, fl);
    lemma_right_diffs::<T>(f, t, tl);
    lemma_filtered(fl, left_differs(f, t));
    lemma_filtered(tl, right_differs(f));
    let left = fl.filter(left_differs(f, t));
    let right = tl.filter(right_differs(f));
    let keys = left + right;
    assert forall|i: int, j: int|
        0 <= i < keys.len() && 0 <= j < keys.len() && i != j implies keys[i] != keys[j] by {
        if i < left.len() && j >= left.len() {
            assert(left.contains(keys[i]) && right.contains(keys[j]));
        }
        if j < left.len() && i >= left.len() {
            assert(left.contains(keys[j]) && right.contains(keys[i]));
        }
    }
    assert forall|k: RowModel| #[trigger] keys.contains(k) <==> key_differs(from, to, n, k) by {
        lemma_by_first(from, n, k);
        lemma_by_first(to, n, k);
        if keys.contains(k) {
            let i = choose|i: int| 0 <= i < keys.len() && keys[i] == k;
            if i < left.len() {
                assert(left.contains(k));
                assert(row_stands(from, n, k, f[k]) && !row_stands(to, n, k, f[k]));
            } else {
                assert(right[i - left.len()] == k);
                assert(right.contains(k));
                assert(row_stands(to, n, k, t[k]) && !row_stands(from, n, k, t[k]));
            }
        }
        if key_differs(from, to, n, k) {
            let r = choose|r: RowModel| #[trigger]
                row_stands(from, n, k, r) != row_stands(to, n, k, r);
            if f.dom().contains(k) {
                assert(left.contains(k));
                let i = choose|i: int| 0 <= i < left.len() && left[i] == k;
                assert(keys[i] == k);
            } else {
                assert(right.contains(k));
                let i = choose|i: int| 0 <= i < right.len() && right[i] == k;
                assert(keys[left.len() + i] == k);
            }
        }
    }
    assert forall|i: int| 0 <= i < d.len() implies tells_change::<T>(
        from,
        to,
        n,
        keys[i],
        #[trigger] d[i],
    ) by {
        let k = keys[i];
        lemma_by_first(from, n, k);
        lemma_by_first(to, n, k);
        if i < left.len() {
            assert(left.contains(k));
            assert(d[i] == left_diffs::<T>(f, t, fl)[i]);
            assert(row_stands(from, n, k, f[k]));
            if t.dom().contains(k) {
                assert(row_stands(to, n, k, t[k]));
            }
        } else {
            assert(right[i - left.len()] == k);
            assert(right.contains(k));
            assert(d[i] == right_diffs::<T>(f, t, tl)[i - left.len()]);
            assert(row_stands(to, n, k, t[k]));
        }
    }
    if d.len() == 0 {
        assert forall|r: RowModel| from.contains(r) <==> #[trigger] to.contains(r) by {
            let k = r.take(n);
            assert(!keys.contains(k));
            assert(!key_differs(from, to, n, k));
            assert(row_stands(from, n, k, r) == row_stands(to, n, k, r));
        }
    } else {
        assert(keys.contains(keys[0]));
        let k = keys[0];
        let r = choose|r: RowModel| #[trigger]
            row_stands(from, n, k, r) != row_stands(to, n, k, r);
        assert(from.contains(r) != to.contains(r));
    }
    keys
}

/// A row that is read by its key is the first one whose first cells are the key; none is
/// read where no row has it, or where that one cannot be read.
pub proof fn law_row_is_found_by_its_key<T: VersionedRow>(rows: Seq<RowModel>, pk: RowModel, i: int)
    requires
        pk.len() == T::pk_model().len(),
        0 <= i < rows.len(),
        rows[i].len() >= pk.len() && rows[i].take(pk.len() as int) == pk,
        forall|j: int|
            0 <= j < i ==> (#[trigger] rows[j]).len() >= pk.len() && rows[j].take(pk.len() as int)
                != pk,
    ensures
        row_of_key::<T>(rows, pk) == T::parsed(rows[i]),
{
    lemma_first_keyed(rows, pk, 0, i);
}

proof fn lemma_first_keyed(rows: Seq<RowModel>, pk: RowModel, from: int, i: int)
    requires
        0 <= from <= i < rows.len(),
        rows[i].len() >= pk.len() && rows[i].take(pk.len() as int) == pk,
        forall|j: int|
            from <= j < i ==> (#[trigger] rows[j]).len() >= pk.len() && rows[j].take(
                pk.len() as int,
            ) != pk,
    ensures
        keyed_from(rows, pk.len() as int, pk, from) == Some(rows[i]),
    decreases i - from,
{
    if from < i {
        assert(rows[from].take(pk.len() as int) != pk);
        lemma_first_keyed(rows, pk, from + 1, i);
    }
}

/// A key that no row has finds nothing.
pub proof fn law_unknown_key_finds_nothing<T: VersionedRow>(rows: Seq<RowModel>, pk: RowModel)
    requires
        pk.len() == T::pk_model().len(),
        forall|j: int|
            0 <= j < rows.len() ==> (#[trigger] rows[j]).len() >= pk.len() && rows[j].take(
                pk.len() as int,
            ) != pk,
    ensures
        row_of_key::<T>(rows, pk) is None,
{
    lemma_none_keyed(rows, pk, 0);
}

proof fn lemma_none_keyed(rows: Seq<RowModel>, pk: RowModel, from: int)
    requires
        0 <= from,
        forall|j: int|
            0 <= j < rows.len() ==> (#[trigger] rows[j]).len() >= pk.len() && rows[j].take(
                pk.len() as int,
            ) != pk,
    ensures
        keyed_from(rows, pk.len() as int, pk, from) is None,
    decreases rows.len() - from,
{
    if from < rows.len() {
        assert(rows[from].take(pk.len() as int) != pk);
        lemma_none_keyed(rows, pk, from + 1);
    }
}

/// All rows are read, each in its place, where all of them can be.
pub proof fn law_all_rows_are_read<T: VersionedRow>(rows: Seq<RowModel>)
    requires
        forall|i: int| 0 <= i < rows.len() ==> T::parsed(#[trigger] rows[i]) is Some,
    ensures
        readable::<T>(rows).len() == rows.len(),
        forall|i: int|
            0 <= i < rows.len() ==> T::parsed(rows[i]) == Some(#[trigger] readable::<T>(rows)[i]),
    decreases rows.len(),
{
    if rows.len() > 0 {
        let d = rows.drop_last();
        assert forall|i: int| 0 <= i < d.len() implies T::parsed(#[trigger] d[i]) is Some by {
            assert(d[i] == rows[i]);
        }
        law_all_rows_are_read::<T>(d);
        assert(T::parsed(rows[rows.len() - 1]) is Some);
        assert forall|i: int| 0 <= i < rows.len() implies T::parsed(rows[i]) == Some(
            #[trigger] readable::<T>(rows)[i],
        ) by {
            if i < d.len() {
                assert(d[i] == rows[i]);
                assert(T::parsed(d[i]) == Some(readable::<T>(d)[i]));
            }
        }
    }
}

/// Deleting a key takes out every row that starts with it and no other, and says whether
/// there was one.
pub proof fn law_delete_takes_out_one_key<T: VersionedRow>(
    s: StoreModel,
    pk: RowModel,
    snap: SnapModel,
    row: RowModel,
)
    requires
        crate::merge::lookup(s.work, T::table_model()) == Some(snap),
        pk.len() == T::pk_model().len(),
        row.len() >= pk.len(),
        forall|i: int| 0 <= i < snap.rows.len() ==> (#[trigger] snap.rows[i]).len() >= pk.len(),
    ensures
        ({
            let (t, found) = deleted::<T>(s, pk);
            &&& t.work.dom().contains(T::table_model())
            &&& t.work[T::table_model()].rows.contains(row) <==> snap.rows.contains(row)
                && row.take(pk.len() as int) != pk
            &&& found <==> exists|i: int|
                0 <= i < snap.rows.len() && (#[trigger] snap.rows[i]).take(pk.len() as int) == pk
            &&& !found ==> t == s
        }),
{
    let n = pk.len() as int;
    let p = |r: RowModel| first_cells(r, n) != pk;
    lemma_filtered(snap.rows, p);
    let left = rows_without(snap.rows, n, pk);
    assert(left == snap.rows.filter(p));
    if exists|i: int| 0 <= i < snap.rows.len() && (#[trigger] snap.rows[i]).take(n) == pk {
        let i = choose|i: int| 0 <= i < snap.rows.len() && (#[trigger] snap.rows[i]).take(n) == pk;
        lemma_filter_shorter(snap.rows, p, i);
    } else {
        assert forall|i: int| 0 <= i < snap.rows.len() implies p(#[trigger] snap.rows[i]) by {
            assert(snap.rows[i].take(n) != pk);
        }
        lemma_filter_whole(snap.rows, p);
        if snap.rows.contains(row) {
            let i = choose|i: int| 0 <= i < snap.rows.len() && snap.rows[i] == row;
            assert(snap.rows[i].take(n) != pk);
        }
    }
}

proof fn lemma_filter_whole<A>(s: Seq<A>, p: spec_fn(A) -> bool)
    requires
        forall|i: int| 0 <= i < s.len() ==> p(#[trigger] s[i]),
    ensures
        s.filter(p) == s,
    decreases s.len(),
{
    reveal(Seq::filter);
    if s.len() > 0 {
        let d = s.drop_last();
        assert forall|i: int| 0 <= i < d.len() implies p(#[trigger] d[i]) by {
            assert(d[i] == s[i]);
        }
        lemma_filter_whole(d, p);
        assert(p(s[s.len() - 1]));
        assert(d.push(s.last()) =~= s);
    }
}

} // verus!
