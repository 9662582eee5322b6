//! Three-way merge of one table's rows.
//!
//! A row is named by its primary-key cells. A table without a primary key has
//! nothing to join its sides on, so it merges by whole-row identity, and every
//! divergence is a conflict.

use vstd::multiset::Multiset;
use vstd::prelude::*;

use crate::assoc::AssocMap;
use crate::text::{Dup, Same};
use crate::values::{
    insert_distinct, insert_row, CellModel, RowModel, VcRow, VcValue,
};

verus! {

/// What happened to one row during a merge, over the types of a key and a row.
#[derive(Debug, Clone, PartialEq, Eq)]
pub enum RowOutcome<K = Vec<VcValue>, R = VcRow> {
    Unchanged,
    Ours,
    Theirs,
    Merged(R),
    Conflict(ConflictRow<K, R>),
}

/// The three sides of a conflicting row and the key that names it.
#[derive(Debug, Clone, PartialEq, Eq)]
pub struct ConflictRow<K = Vec<VcValue>, R = VcRow> {
    pub pk: K,
    pub base: Option<R>,
    pub ours: Option<R>,
    pub theirs: Option<R>,
}

/// What a conflict stands for.
pub type ConflictModel = ConflictRow<RowModel, RowModel>;

impl DeepView for ConflictRow {
    type V = ConflictModel;

    open spec fn deep_view(&self) -> ConflictModel {
        ConflictRow {
            pk: self.pk.deep_view(),
            base: self.base.deep_view(),
            ours: self.ours.deep_view(),
            theirs: self.theirs.deep_view(),
        }
    }
}

impl DeepView for RowOutcome {
    type V = RowOutcome<RowModel, RowModel>;

    open spec fn deep_view(&self) -> RowOutcome<RowModel, RowModel> {
        match *self {
            RowOutcome::Unchanged => RowOutcome::Unchanged,
            RowOutcome::Ours => RowOutcome::Ours,
            RowOutcome::Theirs => RowOutcome::Theirs,
            RowOutcome::Merged(r) => RowOutcome::Merged(r.deep_view()),
            RowOutcome::Conflict(c) => RowOutcome::Conflict(c.deep_view()),
        }
    }
}

/// The merge of one table: the winning rows under their keys and the conflicts.
/// The caller puts the table's name on each conflict.
#[derive(Debug, Clone, PartialEq, Eq)]
pub struct MergeOutcome {
    pub rows: Vec<(Vec<VcValue>, VcRow)>,
    pub conflicts: Vec<(String, ConflictRow)>,
}

/// What a merge outcome stands for.
pub struct MergeModel {
    pub rows: Seq<(RowModel, RowModel)>,
    pub conflicts: Seq<(Seq<char>, ConflictModel)>,
}

impl DeepView for MergeOutcome {
    type V = MergeModel;

    open spec fn deep_view(&self) -> MergeModel {
        MergeModel { rows: self.rows.deep_view(), conflicts: self.conflicts.deep_view() }
    }
}

// ---------------------------------------------------------------------------
// Keys
// ---------------------------------------------------------------------------

/// The first place at or after `i` of a name among the columns.
pub open spec fn name_from(columns: Seq<Seq<char>>, name: Seq<char>, i: int) -> Option<int>
    decreases columns.len() - i,
{
    if i >= columns.len() {
        None
    } else if columns[i] == name {
        Some(i)
    } else {
        name_from(columns, name, i + 1)
    }
}

/// The place found is the first one.
pub proof fn lemma_name_from(columns: Seq<Seq<char>>, name: Seq<char>, i: int)
    requires
        0 <= i <= columns.len(),
    ensures
        match name_from(columns, name, i) {
            Some(k) => i <= k < columns.len() && columns[k] == name && forall|j: int|
                i <= j < k ==> #[trigger] columns[j] != name,
            None => forall|j: int| i <= j < columns.len() ==> #[trigger] columns[j] != name,
        },
    decreases columns.len() - i,
{
    if i < columns.len() && columns[i] != name {
        lemma_name_from(columns, name, i + 1);
    }
}

/// The place of a column.
pub open spec fn column_index(columns: Seq<Seq<char>>, name: Seq<char>) -> Option<int> {
    name_from(columns, name, 0)
}

/// The place of a column.
pub fn find_column(columns: &Vec<String>, name: &str) -> (r: Option<usize>)
    ensures
        match column_index(columns.deep_view(), name@) {
            Some(i) => r matches Some(k) && k == i && k < columns@.len(),
            None => r is None,
        },
{
    let ghost c = columns.deep_view();
    let mut i: usize = 0;
    while i < columns.len()
        invariant
            i <= columns@.len(),
            c == columns.deep_view(),
            name_from(c, name@, i as int) == column_index(c, name@),
        decreases columns.len() - i,
    {
        assert(c[i as int] == columns@[i as int]@);
        if crate::text::str_eq(columns[i].as_str(), name) {
            return Some(i);
        }
        i = i + 1;
    }
    None
}

/// The cell of a row at a place, if the row reaches that far.
pub open spec fn cell_at(row: RowModel, i: int) -> Option<CellModel> {
    if 0 <= i < row.len() {
        Some(row[i])
    } else {
        None
    }
}

/// The key cells of a row, in key order. A key column that is not among the
/// columns, or that the row does not reach, is left out.
pub open spec fn pk_cells(row: RowModel, pk: Seq<Seq<char>>, columns: Seq<Seq<char>>) -> RowModel
    decreases pk.len(),
{
    if pk.len() == 0 {
        seq![]
    } else {
        let rest = pk_cells(row, pk.drop_first(), columns);
        match column_index(columns, pk[0]) {
            Some(i) => match cell_at(row, i) {
                Some(v) => seq![v] + rest,
                None => rest,
            },
            None => rest,
        }
    }
}

/// The key cells of a row.
pub fn extract_pk(row: &VcRow, pk: &Vec<String>, columns: &Vec<String>) -> (r: Vec<VcValue>)
    ensures
        r.deep_view() == pk_cells(row.deep_view(), pk.deep_view(), columns.deep_view()),
{
    let ghost p = pk.deep_view();
    let ghost c = columns.deep_view();
    let ghost w = row.deep_view();
    let mut out: Vec<VcValue> = Vec::new();
    let mut i: usize = 0;
    assert(p.skip(0) =~= p);
    assert(out.deep_view() + pk_cells(w, p, c) =~= pk_cells(w, p, c));
    while i < pk.len()
        invariant
            i <= pk@.len(),
            p == pk.deep_view(),
            c == columns.deep_view(),
            w == row.deep_view(),
            out.deep_view() + pk_cells(w, p.skip(i as int), c) == pk_cells(w, p, c),
        decreases pk.len() - i,
    {
        let ghost before = out.deep_view();
        assert(p.skip(i as int)[0] == pk@[i as int]@);
        assert(p.skip(i as int).drop_first() =~= p.skip(i + 1));
        if let Some(k) = find_column(columns, pk[i].as_str()) {
            if k < row.values.len() {
                let v = row.values[k].dup();
                assert(w[k as int] == row.values@[k as int].deep_view());
                let ghost x = v.deep_view();
                out.push(v);
                proof {
                    assert(out.deep_view() =~= before.push(x));
                    let rest = pk_cells(w, p.skip(i + 1), c);
                    assert(before.push(x) + rest =~= before + (seq![x] + rest));
                }
            }
        }
        i = i + 1;
    }
    assert(p.skip(i as int) =~= seq![]);
    assert(out.deep_view() + seq![] =~= out.deep_view());
    out
}

/// The rows under their keys.
pub open spec fn keyed(
    rows: Seq<RowModel>,
    pk: Seq<Seq<char>>,
    columns: Seq<Seq<char>>,
) -> Seq<(RowModel, RowModel)> {
    rows.map_values(|r: RowModel| (pk_cells(r, pk, columns), r))
}

/// The rows under themselves.
pub open spec fn whole(rows: Seq<RowModel>) -> Seq<(RowModel, RowModel)> {
    rows.map_values(|r: RowModel| (r, r))
}

/// Does every row have a key of its own?
pub open spec fn distinct_keys(
    rows: Seq<RowModel>,
    pk: Seq<Seq<char>>,
    columns: Seq<Seq<char>>,
) -> bool {
    forall|i: int, j: int|
        0 <= i < j < rows.len() ==> pk_cells(#[trigger] rows[i], pk, columns) != pk_cells(
            #[trigger] rows[j],
            pk,
            columns,
        )
}

/// One side taken whole, under its keys.
pub open spec fn side(
    rows: Seq<RowModel>,
    pk: Seq<Seq<char>>,
    columns: Seq<Seq<char>>,
) -> Seq<(RowModel, RowModel)> {
    if pk.len() == 0 {
        whole(rows)
    } else {
        keyed(rows, pk, columns)
    }
}

/// The rows under themselves.
fn rows_whole(rows: &Vec<VcRow>) -> (r: Vec<(Vec<VcValue>, VcRow)>)
    ensures
        r.deep_view() == whole(rows.deep_view()),
{
    let mut out: Vec<(Vec<VcValue>, VcRow)> = Vec::new();
    let mut i: usize = 0;
    while i < rows.len()
        invariant
            i <= rows@.len(),
            out@.len() == i,
            forall|j: int|
                0 <= j < i ==> (#[trigger] out@[j]).0.deep_view() == rows@[j].deep_view()
                    && out@[j].1.deep_view() == rows@[j].deep_view(),
        decreases rows.len() - i,
    {
        out.push((rows[i].values.dup(), rows[i].dup()));
        i = i + 1;
    }
    assert(out.deep_view() =~= whole(rows.deep_view()));
    out
}

/// Index rows by their keys.
fn key_rows(rows: &Vec<VcRow>, pk: &Vec<String>, columns: &Vec<String>) -> (r: AssocMap<
    Vec<VcValue>,
    VcRow,
>)
    requires
        distinct_keys(rows.deep_view(), pk.deep_view(), columns.deep_view()),
    ensures
        r.entries.deep_view() == keyed(rows.deep_view(), pk.deep_view(), columns.deep_view()),
        r.deep_view() == crate::assoc::assoc(
            keyed(rows.deep_view(), pk.deep_view(), columns.deep_view()),
        ),
{
    let mut out: Vec<(Vec<VcValue>, VcRow)> = Vec::new();
    let mut i: usize = 0;
    while i < rows.len()
        invariant
            i <= rows@.len(),
            out@.len() == i,
            forall|j: int|
                0 <= j < i ==> (#[trigger] out@[j]).0.deep_view() == pk_cells(
                    rows@[j].deep_view(),
                    pk.deep_view(),
                    columns.deep_view(),
                ) && out@[j].1.deep_view() == rows@[j].deep_view(),
        decreases rows.len() - i,
    {
        out.push((extract_pk(&rows[i], pk, columns), rows[i].dup()));
        i = i + 1;
    }
    assert(out.deep_view() =~= keyed(rows.deep_view(), pk.deep_view(), columns.deep_view()));
    AssocMap { entries: out }
}

/// Take one side whole, under its keys.
pub fn rows_keyed(rows: &Vec<VcRow>, pk: &Vec<String>, columns: &Vec<String>) -> (r: Vec<
    (Vec<VcValue>, VcRow),
>)
    requires
        pk@.len() > 0 ==> distinct_keys(rows.deep_view(), pk.deep_view(), columns.deep_view()),
    ensures
        r.deep_view() == side(rows.deep_view(), pk.deep_view(), columns.deep_view()),
{
    if pk.len() == 0 {
        rows_whole(rows)
    } else {
        key_rows(rows, pk, columns).entries
    }
}

// ---------------------------------------------------------------------------
// Cells
// ---------------------------------------------------------------------------

/// Did both sides change the cell to different values?
pub open spec fn cell_clash(
    b: Option<CellModel>,
    o: Option<CellModel>,
    t: Option<CellModel>,
) -> bool {
    o != t && o != b && t != b
}

/// The merged cell: a change on one side only is taken, and so is the same
/// change on both; a missing cell reads as null, and so does a clash.
pub open spec fn merged_cell(
    b: Option<CellModel>,
    o: Option<CellModel>,
    t: Option<CellModel>,
) -> CellModel {
    let pick = if o == t {
        o
    } else if o == b {
        t
    } else if t == b {
        o
    } else {
        None
    };
    match pick {
        Some(v) => v,
        None => VcValue::Null,
    }
}

/// The merge of one row that all three sides hold.
pub open spec fn merged_row(
    b: RowModel,
    o: RowModel,
    t: RowModel,
    pk: Seq<Seq<char>>,
    columns: Seq<Seq<char>>,
) -> RowOutcome<RowModel, RowModel> {
    if exists|i: int|
        0 <= i < columns.len() && #[trigger] cell_clash(cell_at(b, i), cell_at(o, i), cell_at(t, i)) {
        RowOutcome::Conflict(
            ConflictRow { pk: pk_cells(o, pk, columns), base: Some(b), ours: Some(o), theirs: Some(t) },
        )
    } else if exists|i: int|
        0 <= i < columns.len() && cell_moved(
            #[trigger] cell_at(b, i),
            cell_at(o, i),
            cell_at(t, i),
        ) {
        RowOutcome::Merged(
            Seq::new(
                columns.len(),
                |i: int| merged_cell(cell_at(b, i), cell_at(o, i), cell_at(t, i)),
            ),
        )
    } else {
        RowOutcome::Unchanged
    }
}

/// Did any side change the cell?
pub open spec fn cell_moved(
    b: Option<CellModel>,
    o: Option<CellModel>,
    t: Option<CellModel>,
) -> bool {
    !(o == b && t == b)
}

fn get_cell(row: &VcRow, i: usize) -> (r: Option<&VcValue>)
    ensures
        match cell_at(row.deep_view(), i as int) {
            Some(v) => r matches Some(x) && x.deep_view() == v,
            None => r is None,
        },
{
    if i < row.values.len() {
        Some(&row.values[i])
    } else {
        None
    }
}

fn same_cell(a: Option<&VcValue>, b: Option<&VcValue>) -> (r: bool)
    ensures
        r == (a.deep_view() == b.deep_view()),
{
    match (a, b) {
        (Some(x), Some(y)) => x.same(y),
        (None, None) => true,
        _ => false,
    }
}

fn cell_or_null(a: Option<&VcValue>) -> (r: VcValue)
    ensures
        r.deep_view() == (match a.deep_view() {
            Some(v) => v,
            None => VcValue::Null,
        }),
{
    match a {
        Some(x) => x.dup(),
        None => VcValue::Null,
    }
}

/// Merge one row that all three sides hold, cell by cell.
fn merge_row(
    base: &VcRow,
    ours: &VcRow,
    theirs: &VcRow,
    pk: &Vec<String>,
    columns: &Vec<String>,
) -> (r: RowOutcome)
    ensures
        r.deep_view() == merged_row(
            base.deep_view(),
            ours.deep_view(),
            theirs.deep_view(),
            pk.deep_view(),
            columns.deep_view(),
        ),
{
    let ghost b = base.deep_view();
    let ghost o = ours.deep_view();
    let ghost t = theirs.deep_view();
    let ghost f = |i: int| merged_cell(cell_at(b, i), cell_at(o, i), cell_at(t, i));
    let mut values: Vec<VcValue> = Vec::new();
    let mut changed: bool = false;
    let mut conflicted: bool = false;
    let mut i: usize = 0;
    while i < columns.len()
        invariant
            i <= columns@.len(),
            b == base.deep_view(),
            o == ours.deep_view(),
            t == theirs.deep_view(),
            values@.len() == i,
            f == (|i: int| merged_cell(cell_at(b, i), cell_at(o, i), cell_at(t, i))),
            forall|j: int| 0 <= j < i ==> (#[trigger] values@[j]).deep_view() == f(j),
            conflicted == exists|j: int|
                0 <= j < i && #[trigger] cell_clash(cell_at(b, j), cell_at(o, j), cell_at(t, j)),
            !conflicted ==> changed == exists|j: int|
                0 <= j < i && cell_moved(#[trigger] cell_at(b, j), cell_at(o, j), cell_at(t, j)),
        decreases columns.len() - i,
    {
        let x = get_cell(base, i);
        let y = get_cell(ours, i);
        let z = get_cell(theirs, i);
        assert(x.deep_view() == cell_at(b, i as int));
        assert(y.deep_view() == cell_at(o, i as int));
        assert(z.deep_view() == cell_at(t, i as int));
        let ghost clash = cell_clash(cell_at(b, i as int), cell_at(o, i as int), cell_at(t, i as int));
        let ghost moved = cell_moved(cell_at(b, i as int), cell_at(o, i as int), cell_at(t, i as int));
        if same_cell(y, z) {
            values.push(cell_or_null(y));
            if !same_cell(y, x) {
                changed = true;
            }
        } else if same_cell(y, x) {
            values.push(cell_or_null(z));
            changed = true;
        } else if same_cell(z, x) {
            values.push(cell_or_null(y));
            changed = true;
        } else {
            conflicted = true;
            values.push(VcValue::Null);
        }
        assert(values@[i as int].deep_view() == f(i as int));
        i = i + 1;
    }
    if conflicted {
        return RowOutcome::Conflict(
            ConflictRow {
                pk: extract_pk(ours, pk, columns),
                base: Some(base.dup()),
                ours: Some(ours.dup()),
                theirs: Some(theirs.dup()),
            },
        );
    }
    if changed {
        assert(values.deep_view() =~= Seq::new(columns.deep_view().len(), f));
        RowOutcome::Merged(VcRow::new(values))
    } else {
        RowOutcome::Unchanged
    }
}

// ---------------------------------------------------------------------------
// Tables with a primary key
// ---------------------------------------------------------------------------

/// What becomes of one key.
pub enum KeyOutcome {
    Gone,
    Row(RowModel),
    Clash(ConflictModel),
}

/// What becomes of one key, given what each side holds under it: a row that one
/// side deleted and the other left alone is gone, one that the other changed is
/// a conflict; equal additions are one, different ones a conflict.
pub open spec fn merge_key(
    key: RowModel,
    b: Option<RowModel>,
    o: Option<RowModel>,
    t: Option<RowModel>,
    pk: Seq<Seq<char>>,
    columns: Seq<Seq<char>>,
) -> KeyOutcome {
    match (b, o, t) {
        (_, None, None) => KeyOutcome::Gone,
        (None, Some(x), None) => KeyOutcome::Row(x),
        (None, None, Some(x)) => KeyOutcome::Row(x),
        (None, Some(x), Some(y)) => if x == y {
            KeyOutcome::Row(x)
        } else {
            KeyOutcome::Clash(ConflictRow { pk: key, base: None, ours: o, theirs: t })
        },
        (Some(x), None, Some(y)) => if x == y {
            KeyOutcome::Gone
        } else {
            KeyOutcome::Clash(ConflictRow { pk: key, base: b, ours: None, theirs: t })
        },
        (Some(x), Some(y), None) => if x == y {
            KeyOutcome::Gone
        } else {
            KeyOutcome::Clash(ConflictRow { pk: key, base: b, ours: o, theirs: None })
        },
        (Some(x), Some(y), Some(z)) => match merged_row(x, y, z, pk, columns) {
            RowOutcome::Merged(r) => KeyOutcome::Row(r),
            RowOutcome::Conflict(c) => KeyOutcome::Clash(c),
            RowOutcome::Theirs => KeyOutcome::Row(z),
            _ => KeyOutcome::Row(y),
        },
    }
}

/// The value under a key.
pub open spec fn lookup<A, B>(m: Map<A, B>, k: A) -> Option<B> {
    if m.dom().contains(k) {
        Some(m[k])
    } else {
        None
    }
}

/// The three sides of a table with a primary key.
pub struct Sides {
    pub base: Map<RowModel, RowModel>,
    pub ours: Map<RowModel, RowModel>,
    pub theirs: Map<RowModel, RowModel>,
    pub pk: Seq<Seq<char>>,
    pub columns: Seq<Seq<char>>,
}

/// What becomes of one key of the sides.
pub open spec fn key_outcome(s: Sides, key: RowModel) -> KeyOutcome {
    merge_key(key, lookup(s.base, key), lookup(s.ours, key), lookup(s.theirs, key), s.pk, s.columns)
}

/// The rows kept, in the order of the keys.
pub open spec fn kept_rows(s: Sides, keys: Seq<RowModel>) -> Seq<(RowModel, RowModel)>
    decreases keys.len(),
{
    if keys.len() == 0 {
        seq![]
    } else {
        let before = kept_rows(s, keys.drop_last());
        match key_outcome(s, keys.last()) {
            KeyOutcome::Row(r) => before.push((keys.last(), r)),
            _ => before,
        }
    }
}

/// The conflicts, in the order of the keys.
pub open spec fn clashes(s: Sides, keys: Seq<RowModel>) -> Seq<(Seq<char>, ConflictModel)>
    decreases keys.len(),
{
    if keys.len() == 0 {
        seq![]
    } else {
        let before = clashes(s, keys.drop_last());
        match key_outcome(s, keys.last()) {
            KeyOutcome::Clash(c) => before.push((seq![], c)),
            _ => before,
        }
    }
}

/// All keys of the sides.
pub open spec fn all_keys(s: Sides) -> Set<RowModel> {
    s.base.dom() + s.ours.dom() + s.theirs.dom()
}

/// A set of rows as an increasing list.
pub open spec fn in_order(rows: Set<RowModel>) -> Seq<RowModel> {
    choose|s: Seq<RowModel>| crate::values::rows_increasing(s) && s.to_set() == rows
}

/// A multiset of rows as a sorted list.
pub open spec fn sorted(rows: Multiset<RowModel>) -> Seq<RowModel> {
    choose|s: Seq<RowModel>| crate::values::rows_sorted(s) && s.to_multiset() == rows
}

/// The merge of the sides, keys in order.
pub open spec fn merge_keys(s: Sides) -> MergeModel {
    let keys = in_order(all_keys(s));
    MergeModel { rows: kept_rows(s, keys), conflicts: clashes(s, keys) }
}

// ---------------------------------------------------------------------------
// Tables without a primary key
// ---------------------------------------------------------------------------

/// A copy of a row that one side has more of than the other, as a conflict.
pub open spec fn lonely_conflict(
    base: Seq<RowModel>,
    ours: Seq<RowModel>,
    theirs: Seq<RowModel>,
    row: RowModel,
) -> (Seq<char>, ConflictModel) {
    let o = ours.to_multiset().count(row);
    let t = theirs.to_multiset().count(row);
    (
        seq![],
        ConflictRow {
            pk: row,
            base: if base.contains(row) {
                Some(row)
            } else {
                None
            },
            ours: if o > t {
                Some(row)
            } else {
                None
            },
            theirs: if t > o {
                Some(row)
            } else {
                None
            },
        },
    )
}

/// The rows that the sides have in common, each as often as both have it.
pub open spec fn shared(ours: Seq<RowModel>, theirs: Seq<RowModel>) -> Multiset<RowModel> {
    ours.to_multiset().intersection_with(theirs.to_multiset())
}

/// The rows that one side has more of than the other, each as often as it has more.
pub open spec fn unshared(ours: Seq<RowModel>, theirs: Seq<RowModel>) -> Multiset<RowModel> {
    ours.to_multiset().difference_with(theirs.to_multiset()).add(
        theirs.to_multiset().difference_with(ours.to_multiset()),
    )
}

/// The merge of a table without a primary key, over multisets: the order of rows does
/// not matter, how often a row stands in a table does. Equal sides merge clean, a side
/// equal to the base gives way to the other. Else the sides have diverged: the rows that
/// both have stay, and every copy of a row that one side has more of is a conflict.
pub open spec fn merge_unkeyed(
    base: Seq<RowModel>,
    ours: Seq<RowModel>,
    theirs: Seq<RowModel>,
) -> MergeModel {
    if ours.to_multiset() == theirs.to_multiset() {
        MergeModel { rows: whole(ours), conflicts: seq![] }
    } else if base.to_multiset() == ours.to_multiset() {
        MergeModel { rows: whole(theirs), conflicts: seq![] }
    } else if base.to_multiset() == theirs.to_multiset() {
        MergeModel { rows: whole(ours), conflicts: seq![] }
    } else {
        MergeModel {
            rows: whole(sorted(shared(ours, theirs))),
            conflicts: sorted(unshared(ours, theirs)).map_values(
                |r: RowModel| lonely_conflict(base, ours, theirs, r),
            ),
        }
    }
}

/// The sides of a table with a primary key.
pub open spec fn sides_of(
    base: Seq<RowModel>,
    ours: Seq<RowModel>,
    theirs: Seq<RowModel>,
    pk: Seq<Seq<char>>,
    columns: Seq<Seq<char>>,
) -> Sides {
    Sides {
        base: crate::assoc::assoc(keyed(base, pk, columns)),
        ours: crate::assoc::assoc(keyed(ours, pk, columns)),
        theirs: crate::assoc::assoc(keyed(theirs, pk, columns)),
        pk,
        columns,
    }
}

/// The merge of one table. Where one side equals the base the other wins whole.
pub open spec fn row_merge(
    base: Seq<RowModel>,
    ours: Seq<RowModel>,
    theirs: Seq<RowModel>,
    pk: Seq<Seq<char>>,
    columns: Seq<Seq<char>>,
) -> MergeModel {
    if theirs == base {
        MergeModel { rows: side(ours, pk, columns), conflicts: seq![] }
    } else if ours == base {
        MergeModel { rows: side(theirs, pk, columns), conflicts: seq![] }
    } else if pk.len() == 0 {
        merge_unkeyed(base, ours, theirs)
    } else {
        merge_keys(sides_of(base, ours, theirs, pk, columns))
    }
}

/// Do the sides that a merge has to index have distinct keys?
pub open spec fn mergeable(
    base: Seq<RowModel>,
    ours: Seq<RowModel>,
    theirs: Seq<RowModel>,
    pk: Seq<Seq<char>>,
    columns: Seq<Seq<char>>,
) -> bool {
    pk.len() > 0 ==> {
        if theirs == base {
            distinct_keys(ours, pk, columns)
        } else if ours == base {
            distinct_keys(theirs, pk, columns)
        } else {
            distinct_keys(base, pk, columns) && distinct_keys(ours, pk, columns) && distinct_keys(
                theirs,
                pk,
                columns,
            )
        }
    }
}

/// The sorted rows of a table.
fn sort_rows(rows: &Vec<VcRow>) -> (r: Vec<Vec<VcValue>>)
    ensures
        crate::values::rows_sorted(r.deep_view()),
        r.deep_view().to_multiset() == rows.deep_view().to_multiset(),
{
    let mut out: Vec<Vec<VcValue>> = Vec::new();
    let ghost s = rows.deep_view();
    let mut i: usize = 0;
    assert(out.deep_view() =~= s.take(0));
    while i < rows.len()
        invariant
            i <= rows@.len(),
            s == rows.deep_view(),
            crate::values::rows_sorted(out.deep_view()),
            out.deep_view().to_multiset() == s.take(i as int).to_multiset(),
        decreases rows.len() - i,
    {
        insert_row(&mut out, rows[i].values.dup());
        proof {
            broadcast use vstd::seq_lib::group_to_multiset_ensures;

            assert(s[i as int] == rows@[i as int].deep_view());
            assert(s.take(i + 1) =~= s.take(i as int).push(s[i as int]));
        }
        i = i + 1;
    }
    assert(s.take(i as int) =~= s);
    out
}

proof fn lemma_same_multiset(a: Seq<RowModel>, b: Seq<RowModel>)
    requires
        crate::values::rows_sorted(a),
        crate::values::rows_sorted(b),
    ensures
        a == b <==> a.to_multiset() == b.to_multiset(),
{
    if a.to_multiset() == b.to_multiset() {
        crate::values::lemma_sorted_unique(a, b);
    }
}

/// Merge a table without a primary key.
fn merge_no_pk(base: &Vec<VcRow>, ours: &Vec<VcRow>, theirs: &Vec<VcRow>) -> (r: MergeOutcome)
    ensures
        r.deep_view() == merge_unkeyed(base.deep_view(), ours.deep_view(), theirs.deep_view()),
{
    let ghost b = base.deep_view();
    let ghost o = ours.deep_view();
    let ghost t = theirs.deep_view();
    let ours_sorted = sort_rows(ours);
    let theirs_sorted = sort_rows(theirs);
    let no_conflicts: Vec<(String, ConflictRow)> = Vec::new();
    assert(no_conflicts.deep_view() =~= seq![]);
    proof {
        lemma_same_multiset(ours_sorted.deep_view(), theirs_sorted.deep_view());
    }
    if ours_sorted.same(&theirs_sorted) {
        return MergeOutcome { rows: rows_whole(ours), conflicts: no_conflicts };
    }
    let base_sorted = sort_rows(base);
    proof {
        lemma_same_multiset(base_sorted.deep_view(), ours_sorted.deep_view());
        lemma_same_multiset(base_sorted.deep_view(), theirs_sorted.deep_view());
    }
    if base_sorted.same(&ours_sorted) {
        return MergeOutcome { rows: rows_whole(theirs), conflicts: no_conflicts };
    }
    if base_sorted.same(&theirs_sorted) {
        return MergeOutcome { rows: rows_whole(ours), conflicts: no_conflicts };
    }
    let (shared, lonely) = split_rows(ours, theirs);
    let conflicts = lonely_conflicts(base, ours, theirs, lonely);
    let mut rows: Vec<(Vec<VcValue>, VcRow)> = Vec::new();
    let mut i: usize = 0;
    while i < shared.len()
        invariant
            i <= shared@.len(),
            rows@.len() == i,
            forall|j: int|
                0 <= j < i ==> (#[trigger] rows@[j]).0.deep_view() == shared.deep_view()[j]
                    && rows@[j].1.deep_view() == shared.deep_view()[j],
        decreases shared.len() - i,
    {
        assert(shared.deep_view()[i as int] == shared@[i as int].deep_view());
        rows.push((shared[i].dup(), VcRow::new(shared[i].dup())));
        i = i + 1;
    }
    assert(rows.deep_view() =~= whole(shared.deep_view()));
    MergeOutcome { rows, conflicts }
}

/// How often an item stands in what two multisets share, and in what one has more of.
proof fn lemma_counts<A>(a: Multiset<A>, b: Multiset<A>)
    ensures
        forall|x: A| #[trigger]
            a.intersection_with(b).count(x) == if a.count(x) < b.count(x) {
                a.count(x)
            } else {
                b.count(x)
            },
        forall|x: A| #[trigger]
            a.difference_with(b).count(x) == if a.count(x) > b.count(x) {
                (a.count(x) - b.count(x)) as nat
            } else {
                0
            },
{
    assert forall|x: A| #[trigger]
        a.intersection_with(b).count(x) == if a.count(x) < b.count(x) {
            a.count(x)
        } else {
            b.count(x)
        } by {
        vstd::multiset::lemma_intersection_count(a, b, x);
    }
    assert forall|x: A| #[trigger]
        a.difference_with(b).count(x) == if a.count(x) > b.count(x) {
            (a.count(x) - b.count(x)) as nat
        } else {
            0
        } by {
        vstd::multiset::lemma_difference_count(a, b, x);
    }
}

/// The place of a row among the rows.
fn find_row(rows: &Vec<VcRow>, row: &VcRow) -> (r: Option<usize>)
    ensures
        match r {
            Some(k) => k < rows@.len() && rows.deep_view()[k as int] == row.deep_view(),
            None => !rows.deep_view().contains(row.deep_view()),
        },
{
    let mut i: usize = 0;
    while i < rows.len()
        invariant
            i <= rows@.len(),
            forall|j: int| 0 <= j < i ==> (#[trigger] rows@[j]).deep_view() != row.deep_view(),
        decreases rows.len() - i,
    {
        if rows[i].same(row) {
            return Some(i);
        }
        i = i + 1;
    }
    assert forall|j: int| 0 <= j < rows@.len() implies rows.deep_view()[j] != row.deep_view() by {
        assert(rows.deep_view()[j] == rows@[j].deep_view());
    }
    None
}

/// How often a row stands among the rows.
fn count_row(rows: &Vec<VcRow>, row: &VcRow) -> (r: usize)
    ensures
        r == rows.deep_view().to_multiset().count(row.deep_view()),
{
    broadcast use vstd::multiset::group_multiset_axioms;

    let ghost s = rows.deep_view();
    let mut n: usize = 0;
    let mut i: usize = 0;
    proof {
        assert(s.take(0) =~= seq![]);
        s.take(0).to_multiset_ensures();
    }
    while i < rows.len()
        invariant
            i <= rows@.len(),
            n <= i,
            s == rows.deep_view(),
            n == s.take(i as int).to_multiset().count(row.deep_view()),
        decreases rows.len() - i,
    {
        proof {
            broadcast use vstd::seq_lib::group_to_multiset_ensures;

            assert(s[i as int] == rows@[i as int].deep_view());
            assert(s.take(i + 1) =~= s.take(i as int).push(s[i as int]));
        }
        if rows[i].same(row) {
            n = n + 1;
        }
        i = i + 1;
    }
    assert(s.take(i as int) =~= s);
    n
}

/// The rows that the sides share and those that they do not, sorted.
fn split_rows(ours: &Vec<VcRow>, theirs: &Vec<VcRow>) -> (r: (
    Vec<Vec<VcValue>>,
    Vec<Vec<VcValue>>,
))
    ensures
        r.0.deep_view() == sorted(shared(ours.deep_view(), theirs.deep_view())),
        r.1.deep_view() == sorted(unshared(ours.deep_view(), theirs.deep_view())),
{
    broadcast use vstd::multiset::group_multiset_axioms;

    let ghost o = ours.deep_view();
    let ghost t = theirs.deep_view();
    let ghost tm = t.to_multiset();
    let mut rest: Vec<VcRow> = theirs.dup();
    let mut both: Vec<Vec<VcValue>> = Vec::new();
    let mut lone: Vec<Vec<VcValue>> = Vec::new();
    let mut i: usize = 0;
    proof {
        assert(both.deep_view() =~= seq![]);
        assert(lone.deep_view() =~= seq![]);
        assert(o.take(0) =~= seq![]);
        let none = o.take(0).to_multiset();
        o.take(0).to_multiset_ensures();
        lemma_counts(none, tm);
        lemma_counts(tm, none);
        assert(both.deep_view().to_multiset() =~= none.intersection_with(tm));
        assert(lone.deep_view().to_multiset() =~= none.difference_with(tm));
        assert(rest.deep_view().to_multiset() =~= tm.difference_with(none));
    }
    while i < ours.len()
        invariant
            i <= ours@.len(),
            o == ours.deep_view(),
            tm == t.to_multiset(),
            crate::values::rows_sorted(both.deep_view()),
            crate::values::rows_sorted(lone.deep_view()),
            both.deep_view().to_multiset() == o.take(i as int).to_multiset().intersection_with(tm),
            lone.deep_view().to_multiset() == o.take(i as int).to_multiset().difference_with(tm),
            rest.deep_view().to_multiset() == tm.difference_with(o.take(i as int).to_multiset()),
        decreases ours.len() - i,
    {
        let ghost x = o[i as int];
        let ghost was = o.take(i as int).to_multiset();
        let ghost now = o.take(i + 1).to_multiset();
        let ghost left = rest.deep_view();
        proof {
            broadcast use vstd::seq_lib::group_to_multiset_ensures;

            assert(x == ours@[i as int].deep_view());
            assert(o.take(i + 1) =~= o.take(i as int).push(x));
            assert(now == was.insert(x));
            lemma_counts(was, tm);
            lemma_counts(tm, was);
            lemma_counts(now, tm);
            lemma_counts(tm, now);
            assert(left.contains(x) <==> left.to_multiset().count(x) > 0);
        }
        match find_row(&rest, &ours[i]) {
            Some(k) => {
                assert(left.contains(x)) by {
                    assert(left[k as int] == x);
                }
                let _ = rest.remove(k);
                assert(rest.deep_view() =~= left.remove(k as int));
                proof {
                    vstd::seq_lib::to_multiset_remove(left, k as int);
                }
                insert_row(&mut both, ours[i].values.dup());
            },
            None => {
                insert_row(&mut lone, ours[i].values.dup());
            },
        }
        assert(both.deep_view().to_multiset() =~= now.intersection_with(tm));
        assert(lone.deep_view().to_multiset() =~= now.difference_with(tm));
        assert(rest.deep_view().to_multiset() =~= tm.difference_with(now));
        i = i + 1;
    }
    assert(o.take(i as int) =~= o);
    let ghost left = rest.deep_view();
    let ghost mine = lone.deep_view().to_multiset();
    let mut k: usize = 0;
    proof {
        assert(left.take(0) =~= seq![]);
        left.take(0).to_multiset_ensures();
        assert(mine =~= mine.add(left.take(0).to_multiset()));
    }
    while k < rest.len()
        invariant
            k <= rest@.len(),
            left == rest.deep_view(),
            crate::values::rows_sorted(lone.deep_view()),
            lone.deep_view().to_multiset() == mine.add(left.take(k as int).to_multiset()),
        decreases rest.len() - k,
    {
        proof {
            broadcast use vstd::seq_lib::group_to_multiset_ensures;

            assert(left[k as int] == rest@[k as int].deep_view());
            assert(left.take(k + 1) =~= left.take(k as int).push(left[k as int]));
        }
        insert_row(&mut lone, rest[k].values.dup());
        assert(lone.deep_view().to_multiset() =~= mine.add(left.take(k + 1).to_multiset()));
        k = k + 1;
    }
    assert(left.take(k as int) =~= left);
    proof {
        crate::values::lemma_sorted_unique(both.deep_view(), sorted(shared(o, t)));
        crate::values::lemma_sorted_unique(lone.deep_view(), sorted(unshared(o, t)));
    }
    (both, lone)
}

/// The conflict of each copy of a row that one side has more of.
fn lonely_conflicts(
    base: &Vec<VcRow>,
    ours: &Vec<VcRow>,
    theirs: &Vec<VcRow>,
    rows: Vec<Vec<VcValue>>,
) -> (r: Vec<(String, ConflictRow)>)
    ensures
        r.deep_view() == rows.deep_view().map_values(
            |x: RowModel|
                lonely_conflict(base.deep_view(), ours.deep_view(), theirs.deep_view(), x),
        ),
{
    let mut out: Vec<(String, ConflictRow)> = Vec::new();
    let mut i: usize = 0;
    while i < rows.len()
        invariant
            i <= rows@.len(),
            out@.len() == i,
            forall|j: int|
                0 <= j < i ==> (#[trigger] out@[j]).deep_view() == lonely_conflict(
                    base.deep_view(),
                    ours.deep_view(),
                    theirs.deep_view(),
                    rows@[j].deep_view(),
                ),
        decreases rows.len() - i,
    {
        let row = VcRow::new(rows[i].dup());
        let many: usize = count_row(ours, &row);
        let more: usize = count_row(theirs, &row);
        let b = if find_row(base, &row).is_some() {
            Some(row.dup())
        } else {
            None
        };
        assert(b.deep_view() == (if base.deep_view().contains(row.deep_view()) {
            Some(row.deep_view())
        } else {
            None
        }));
        let o = if many > more {
            Some(row.dup())
        } else {
            None
        };
        let t = if more > many {
            Some(row.dup())
        } else {
            None
        };
        let name = String::new();
        assert(name@ =~= seq![]);
        out.push((name, ConflictRow { pk: rows[i].dup(), base: b, ours: o, theirs: t }));
        i = i + 1;
    }
    assert(out.deep_view() =~= rows.deep_view().map_values(
        |x: RowModel| lonely_conflict(base.deep_view(), ours.deep_view(), theirs.deep_view(), x),
    ));
    out
}

/// Add the keys of one side to an increasing list of keys.
fn add_keys(keys: &mut Vec<Vec<VcValue>>, m: &AssocMap<Vec<VcValue>, VcRow>)
    requires
        crate::values::rows_increasing(old(keys).deep_view()),
    ensures
        crate::values::rows_increasing(final(keys).deep_view()),
        final(keys).deep_view().to_set() == old(keys).deep_view().to_set() + m.deep_view().dom(),
{
    let ghost start = keys.deep_view().to_set();
    let ghost e = m.entries.deep_view();
    let mut i: usize = 0;
    while i < m.entries.len()
        invariant
            i <= m.entries@.len(),
            e == m.entries.deep_view(),
            start == old(keys).deep_view().to_set(),
            crate::values::rows_increasing(keys.deep_view()),
            forall|x: RowModel| #[trigger]
                keys.deep_view().to_set().contains(x) <==> start.contains(x) || exists|j: int|
                    0 <= j < i && (#[trigger] e[j]).0 == x,
        decreases m.entries.len() - i,
    {
        assert(e[i as int].0 == m.entries@[i as int].0.deep_view());
        insert_distinct(keys, m.entries[i].0.dup());
        i = i + 1;
    }
    proof {
        assert forall|x: RowModel| keys.deep_view().to_set().contains(x) <==> (start
            + m.deep_view().dom()).contains(x) by {
            crate::assoc::lemma_assoc_dom(e, x);
        }
        assert(keys.deep_view().to_set() =~= start + m.deep_view().dom());
    }
}

/// The keys of rows in increasing order.
pub fn sorted_row_keys(m: &AssocMap<Vec<VcValue>, VcRow>) -> (r: Vec<Vec<VcValue>>)
    ensures
        r.deep_view() == in_order(m.deep_view().dom()),
        r.deep_view().to_set() == m.deep_view().dom(),
{
    let mut keys: Vec<Vec<VcValue>> = Vec::new();
    assert(keys.deep_view() =~= seq![]);
    add_keys(&mut keys, m);
    proof {
        assert(keys.deep_view().to_set() =~= m.deep_view().dom());
        crate::values::lemma_increasing_unique(
            keys.deep_view(),
            in_order(m.deep_view().dom()),
        );
    }
    keys
}

fn get_row(m: &AssocMap<Vec<VcValue>, VcRow>, key: &Vec<VcValue>) -> (r: Option<VcRow>)
    ensures
        r.deep_view() == lookup(m.deep_view(), key.deep_view()),
{
    match m.get(key) {
        Some(row) => Some(row.dup()),
        None => None,
    }
}

/// Put what becomes of one key into the outcome.
fn place_key(
    key: &Vec<VcValue>,
    b: Option<VcRow>,
    o: Option<VcRow>,
    t: Option<VcRow>,
    pk: &Vec<String>,
    columns: &Vec<String>,
    out: &mut MergeOutcome,
)
    ensures
        ({
            let before = old(out).deep_view();
            let after = final(out).deep_view();
            match merge_key(
                key.deep_view(),
                b.deep_view(),
                o.deep_view(),
                t.deep_view(),
                pk.deep_view(),
                columns.deep_view(),
            ) {
                KeyOutcome::Gone => after == before,
                KeyOutcome::Row(r) => after.rows == before.rows.push((key.deep_view(), r))
                    && after.conflicts == before.conflicts,
                KeyOutcome::Clash(c) => after.rows == before.rows && after.conflicts
                    == before.conflicts.push((Seq::<char>::empty(), c)),
            }
        }),
{
    match (b, o, t) {
        (_, None, None) => {},
        (None, Some(x), None) => {
            push_row(out, key.dup(), x);
        },
        (None, None, Some(x)) => {
            push_row(out, key.dup(), x);
        },
        (None, Some(x), Some(y)) => {
            if x.same(&y) {
                push_row(out, key.dup(), x);
            } else {
                push_conflict(
                    out,
                    ConflictRow { pk: key.dup(), base: None, ours: Some(x), theirs: Some(y) },
                );
            }
        },
        (Some(x), None, Some(y)) => {
            if !x.same(&y) {
                push_conflict(
                    out,
                    ConflictRow { pk: key.dup(), base: Some(x), ours: None, theirs: Some(y) },
                );
            }
        },
        (Some(x), Some(y), None) => {
            if !x.same(&y) {
                push_conflict(
                    out,
                    ConflictRow { pk: key.dup(), base: Some(x), ours: Some(y), theirs: None },
                );
            }
        },
        (Some(x), Some(y), Some(z)) => match merge_row(&x, &y, &z, pk, columns) {
            RowOutcome::Merged(row) => {
                push_row(out, key.dup(), row);
            },
            RowOutcome::Conflict(conflict) => {
                push_conflict(out, conflict);
            },
            RowOutcome::Theirs => {
                push_row(out, key.dup(), z);
            },
            _ => {
                push_row(out, key.dup(), y);
            },
        },
    }
}

fn push_row(out: &mut MergeOutcome, key: Vec<VcValue>, row: VcRow)
    ensures
        final(out).deep_view().rows == old(out).deep_view().rows.push(
            (key.deep_view(), row.deep_view()),
        ),
        final(out).deep_view().conflicts == old(out).deep_view().conflicts,
{
    let ghost e = (key.deep_view(), row.deep_view());
    out.rows.push((key, row));
    assert(out.rows.deep_view() =~= old(out).rows.deep_view().push(e));
}

fn push_conflict(out: &mut MergeOutcome, c: ConflictRow)
    ensures
        final(out).deep_view().rows == old(out).deep_view().rows,
        final(out).deep_view().conflicts == old(out).deep_view().conflicts.push(
            (Seq::<char>::empty(), c.deep_view()),
        ),
{
    let ghost x = c.deep_view();
    let name = String::new();
    out.conflicts.push((name, c));
    assert(out.conflicts.deep_view() =~= old(out).conflicts.deep_view().push(
        (Seq::<char>::empty(), x),
    ));
}

/// Merge one table's rows.
pub fn three_way_row_merge(
    base: &Vec<VcRow>,
    ours: &Vec<VcRow>,
    theirs: &Vec<VcRow>,
    pk: &Vec<String>,
    columns: &Vec<String>,
) -> (r: MergeOutcome)
    requires
        mergeable(
            base.deep_view(),
            ours.deep_view(),
            theirs.deep_view(),
            pk.deep_view(),
            columns.deep_view(),
        ),
    ensures
        r.deep_view() == row_merge(
            base.deep_view(),
            ours.deep_view(),
            theirs.deep_view(),
            pk.deep_view(),
            columns.deep_view(),
        ),
{
    let none: Vec<(String, ConflictRow)> = Vec::new();
    assert(none.deep_view() =~= seq![]);
    if theirs.same(base) {
        return MergeOutcome { rows: rows_keyed(ours, pk, columns), conflicts: none };
    }
    if ours.same(base) {
        return MergeOutcome { rows: rows_keyed(theirs, pk, columns), conflicts: none };
    }
    if pk.len() == 0 {
        return merge_no_pk(base, ours, theirs);
    }
    let base_map = key_rows(base, pk, columns);
    let ours_map = key_rows(ours, pk, columns);
    let theirs_map = key_rows(theirs, pk, columns);
    let ghost s = sides_of(
        base.deep_view(),
        ours.deep_view(),
        theirs.deep_view(),
        pk.deep_view(),
        columns.deep_view(),
    );
    let mut keys: Vec<Vec<VcValue>> = Vec::new();
    assert(keys.deep_view().to_set() =~= Set::<RowModel>::empty());
    add_keys(&mut keys, &base_map);
    add_keys(&mut keys, &ours_map);
    add_keys(&mut keys, &theirs_map);
    let ghost k = keys.deep_view();
    proof {
        assert(k.to_set() =~= all_keys(s));
        crate::values::lemma_increasing_unique(k, in_order(all_keys(s)));
    }
    let mut out = MergeOutcome { rows: Vec::new(), conflicts: none };
    let mut i: usize = 0;
    assert(out.deep_view().rows =~= kept_rows(s, k.take(0)));
    assert(out.deep_view().conflicts =~= clashes(s, k.take(0)));
    while i < keys.len()
        invariant
            i <= keys@.len(),
            k == keys.deep_view(),
            s.base == base_map.deep_view(),
            s.ours == ours_map.deep_view(),
            s.theirs == theirs_map.deep_view(),
            s.pk == pk.deep_view(),
            s.columns == columns.deep_view(),
            out.deep_view().rows == kept_rows(s, k.take(i as int)),
            out.deep_view().conflicts == clashes(s, k.take(i as int)),
        decreases keys.len() - i,
    {
        assert(k.take(i + 1).drop_last() =~= k.take(i as int));
        assert(k.take(i + 1).last() == keys@[i as int].deep_view());
        let b = get_row(&base_map, &keys[i]);
        let o = get_row(&ours_map, &keys[i]);
        let t = get_row(&theirs_map, &keys[i]);
        place_key(&keys[i], b, o, t, pk, columns, &mut out);
        i = i + 1;
    }
    assert(k.take(i as int) =~= k);
    out
}

// ---------------------------------------------------------------------------
// Laws
// ---------------------------------------------------------------------------

/// A finite set of rows has an increasing list, with each of them once.
pub proof fn lemma_in_order(rows: Set<RowModel>)
    requires
        rows.finite(),
    ensures
        crate::values::rows_increasing(in_order(rows)),
        in_order(rows).to_set() == rows,
        in_order(rows).no_duplicates(),
        forall|r: RowModel| #[trigger] in_order(rows).contains(r) <==> rows.contains(r),
{
    let lt = |a: RowModel, b: RowModel| crate::values::row_lt(a, b);
    assert forall|a: RowModel| !#[trigger] lt(a, a) by {
        crate::values::lemma_row_lt_total(a, a);
    }
    assert forall|a: RowModel, b: RowModel| #[trigger] lt(a, b) implies !lt(b, a) by {
        crate::values::lemma_row_lt_total(a, b);
    }
    assert forall|a: RowModel, b: RowModel| a != b implies #[trigger] lt(a, b) || lt(b, a) by {
        crate::values::lemma_row_lt_total(a, b);
    }
    assert forall|a: RowModel, b: RowModel, c: RowModel| #[trigger]
        lt(a, b) && #[trigger] lt(b, c) implies lt(a, c) by {
        crate::values::lemma_row_lt_trans(a, b, c);
    }
    let list = crate::sorting::lemma_increasing_exists(rows, lt);
    assert forall|i: int, j: int| 0 <= i < j < list.len() implies crate::values::row_lt(
        #[trigger] list[i],
        #[trigger] list[j],
    ) by {
        assert(lt(list[i], list[j]));
    }
    assert(crate::values::rows_increasing(list) && list.to_set() == rows);
    let order = in_order(rows);
    assert forall|i: int, j: int|
        0 <= i < order.len() && 0 <= j < order.len() && i != j implies order[i] != order[j] by {
        crate::values::lemma_row_lt_total(order[i], order[j]);
        if i < j {
            assert(crate::values::row_lt(order[i], order[j]));
        } else {
            assert(crate::values::row_lt(order[j], order[i]));
        }
    }
    assert forall|r: RowModel| #[trigger] order.contains(r) <==> rows.contains(r) by {
        assert(order.contains(r) <==> order.to_set().contains(r));
    }
}

/// A side that did not move off the base gives way to the other whole, without
/// a conflict.
pub proof fn law_unmoved_side_gives_way(
    base: Seq<RowModel>,
    ours: Seq<RowModel>,
    pk: Seq<Seq<char>>,
    columns: Seq<Seq<char>>,
)
    ensures
        row_merge(base, ours, base, pk, columns) == (MergeModel {
            rows: side(ours, pk, columns),
            conflicts: seq![],
        }),
        row_merge(base, base, ours, pk, columns) == (MergeModel {
            rows: side(ours, pk, columns),
            conflicts: seq![],
        }),
{
}

/// A cell merge takes the one change there is, and conflicts exactly where both
/// sides changed the cell to different values.
pub proof fn law_cell_rule(b: CellModel, o: CellModel, t: CellModel)
    ensures
        merged_cell(Some(b), Some(b), Some(t)) == t,
        merged_cell(Some(b), Some(o), Some(b)) == o,
        merged_cell(Some(b), Some(o), Some(o)) == o,
        cell_clash(Some(b), Some(o), Some(t)) <==> o != b && t != b && o != t,
{
}

/// The mirror image of a conflict.
pub open spec fn swapped(k: KeyOutcome) -> KeyOutcome {
    match k {
        KeyOutcome::Clash(c) => KeyOutcome::Clash(
            ConflictRow { pk: c.pk, base: c.base, ours: c.theirs, theirs: c.ours },
        ),
        other => other,
    }
}

/// Which side is called ours does not matter to what becomes of a key, but for
/// the names of the sides in a conflict: for rows as wide as the table and
/// named by their own key cells.
pub proof fn law_merge_key_symmetric(
    key: RowModel,
    b: Option<RowModel>,
    o: Option<RowModel>,
    t: Option<RowModel>,
    pk: Seq<Seq<char>>,
    columns: Seq<Seq<char>>,
)
    requires
        o matches Some(r) ==> r.len() == columns.len() && pk_cells(r, pk, columns) == key,
        t matches Some(r) ==> r.len() == columns.len() && pk_cells(r, pk, columns) == key,
    ensures
        merge_key(key, b, t, o, pk, columns) == swapped(merge_key(key, b, o, t, pk, columns)),
{
    if let (Some(x), Some(y), Some(z)) = (b, o, t) {
        assert forall|i: int|
            #[trigger] cell_clash(cell_at(x, i), cell_at(y, i), cell_at(z, i)) == cell_clash(
                cell_at(x, i),
                cell_at(z, i),
                cell_at(y, i),
            ) by {}
        if forall|i: int|
            0 <= i < columns.len() ==> !#[trigger] cell_clash(
                cell_at(x, i),
                cell_at(y, i),
                cell_at(z, i),
            ) {
            assert forall|i: int| 0 <= i < columns.len() implies !#[trigger] cell_clash(
                cell_at(x, i),
                cell_at(z, i),
                cell_at(y, i),
            ) by {
                assert(!cell_clash(cell_at(x, i), cell_at(y, i), cell_at(z, i)));
            }
            let f = |i: int| merged_cell(cell_at(x, i), cell_at(y, i), cell_at(z, i));
            let g = |i: int| merged_cell(cell_at(x, i), cell_at(z, i), cell_at(y, i));
            let fs = Seq::new(columns.len(), f);
            let gs = Seq::new(columns.len(), g);
            assert forall|i: int| 0 <= i < columns.len() implies #[trigger] fs[i] == gs[i] by {
                assert(!cell_clash(cell_at(x, i), cell_at(y, i), cell_at(z, i)));
            }
            assert(fs =~= gs);
            if forall|i: int|
                0 <= i < columns.len() ==> !cell_moved(
                    #[trigger] cell_at(x, i),
                    cell_at(y, i),
                    cell_at(z, i),
                ) {
                assert forall|i: int| 0 <= i < columns.len() implies y[i] == z[i] by {
                    assert(!cell_moved(cell_at(x, i), cell_at(y, i), cell_at(z, i)));
                }
                assert(y =~= z);
            } else {
                let i = choose|i: int|
                    0 <= i < columns.len() && cell_moved(
                        #[trigger] cell_at(x, i),
                        cell_at(y, i),
                        cell_at(z, i),
                    );
                assert(cell_moved(cell_at(x, i), cell_at(z, i), cell_at(y, i)));
            }
        } else {
            let i = choose|i: int|
                0 <= i < columns.len() && #[trigger] cell_clash(
                    cell_at(x, i),
                    cell_at(y, i),
                    cell_at(z, i),
                );
            assert(cell_clash(cell_at(x, i), cell_at(z, i), cell_at(y, i)));
        }
    }
}

/// The mirror image of a conflict of a table.
pub open spec fn mirrored_conflict(e: (Seq<char>, ConflictModel)) -> (Seq<char>, ConflictModel) {
    (e.0, ConflictRow { pk: e.1.pk, base: e.1.base, ours: e.1.theirs, theirs: e.1.ours })
}

/// The mirror image of a merge: the same rows, and in each conflict the sides exchanged.
pub open spec fn mirrored(m: MergeModel) -> MergeModel {
    MergeModel {
        rows: m.rows,
        conflicts: m.conflicts.map_values(|e: (Seq<char>, ConflictModel)| mirrored_conflict(e)),
    }
}

/// The sides with ours and theirs exchanged.
pub open spec fn exchanged(s: Sides) -> Sides {
    Sides { ours: s.theirs, theirs: s.ours, ..s }
}

/// Are all rows as wide as the table?
pub open spec fn as_wide(rows: Seq<RowModel>, columns: Seq<Seq<char>>) -> bool {
    forall|i: int| 0 <= i < rows.len() ==> (#[trigger] rows[i]).len() == columns.len()
}

/// What stands under a key is a row with that key.
proof fn lemma_keyed_row(
    rows: Seq<RowModel>,
    pk: Seq<Seq<char>>,
    columns: Seq<Seq<char>>,
    key: RowModel,
)
    requires
        as_wide(rows, columns),
    ensures
        lookup(crate::assoc::assoc(keyed(rows, pk, columns)), key) matches Some(r) ==> r.len()
            == columns.len() && pk_cells(r, pk, columns) == key,
    decreases rows.len(),
{
    if rows.len() > 0 {
        let rest = rows.drop_first();
        assert forall|i: int| 0 <= i < rest.len() implies (#[trigger] rest[i]).len()
            == columns.len() by {
            assert(rest[i] == rows[i + 1]);
        }
        lemma_keyed_row(rest, pk, columns, key);
        assert(keyed(rows, pk, columns).drop_first() =~= keyed(rest, pk, columns));
        assert(keyed(rows, pk, columns)[0] == (pk_cells(rows[0], pk, columns), rows[0]));
    }
}

proof fn lemma_kept_mirrored(s: Sides, keys: Seq<RowModel>)
    requires
        forall|k: RowModel| #[trigger] key_outcome(exchanged(s), k) == swapped(key_outcome(s, k)),
    ensures
        kept_rows(exchanged(s), keys) == kept_rows(s, keys),
        clashes(exchanged(s), keys) == clashes(s, keys).map_values(
            |e: (Seq<char>, ConflictModel)| mirrored_conflict(e),
        ),
    decreases keys.len(),
{
    let f = |e: (Seq<char>, ConflictModel)| mirrored_conflict(e);
    if keys.len() > 0 {
        lemma_kept_mirrored(s, keys.drop_last());
        let k = keys.last();
        assert(key_outcome(exchanged(s), k) == swapped(key_outcome(s, k)));
        let before = clashes(s, keys.drop_last());
        if let KeyOutcome::Clash(c) = key_outcome(s, k) {
            let e = (Seq::<char>::empty(), c);
            assert(before.push(e).map_values(f) =~= before.map_values(f).push(f(e)));
        }
    }
    assert(clashes(exchanged(s), keys) =~= clashes(s, keys).map_values(f));
}

/// Which side is called ours does not matter to the merge of a table with a primary key:
/// exchanging the sides keeps the rows and exchanges the sides in every conflict.
pub proof fn law_merge_symmetric(
    base: Seq<RowModel>,
    ours: Seq<RowModel>,
    theirs: Seq<RowModel>,
    pk: Seq<Seq<char>>,
    columns: Seq<Seq<char>>,
)
    requires
        pk.len() > 0,
        as_wide(ours, columns),
        as_wide(theirs, columns),
    ensures
        row_merge(base, theirs, ours, pk, columns) == mirrored(
            row_merge(base, ours, theirs, pk, columns),
        ),
{
    let m = row_merge(base, ours, theirs, pk, columns);
    if theirs == base || ours == base {
        assert(mirrored(m).conflicts =~= seq![]);
    } else {
        let s = sides_of(base, ours, theirs, pk, columns);
        assert(exchanged(s) == sides_of(base, theirs, ours, pk, columns));
        assert forall|k: RowModel| #[trigger] key_outcome(exchanged(s), k) == swapped(
            key_outcome(s, k),
        ) by {
            lemma_keyed_row(ours, pk, columns, k);
            lemma_keyed_row(theirs, pk, columns, k);
            law_merge_key_symmetric(
                k,
                lookup(s.base, k),
                lookup(s.ours, k),
                lookup(s.theirs, k),
                pk,
                columns,
            );
        }
        assert(all_keys(exchanged(s)) =~= all_keys(s));
        lemma_kept_mirrored(s, in_order(all_keys(s)));
    }
}

/// The same change on both sides never conflicts: a key under which both sides
/// hold the same row keeps the row's cells.
pub proof fn law_same_change_is_clean(
    key: RowModel,
    b: Option<RowModel>,
    x: RowModel,
    pk: Seq<Seq<char>>,
    columns: Seq<Seq<char>>,
)
    requires
        x.len() == columns.len(),
    ensures
        merge_key(key, b, Some(x), Some(x), pk, columns) == KeyOutcome::Row(x),
{
    if let Some(y) = b {
        assert forall|i: int| 0 <= i < columns.len() implies !#[trigger] cell_clash(
            cell_at(y, i),
            cell_at(x, i),
            cell_at(x, i),
        ) by {}
        let f = |i: int| merged_cell(cell_at(y, i), cell_at(x, i), cell_at(x, i));
        assert(Seq::new(columns.len(), f) =~= x);
    }
}

/// Every multiset is that of a list.
proof fn lemma_listed(m: Multiset<RowModel>) -> (s: Seq<RowModel>)
    ensures
        s.to_multiset() == m,
    decreases m.len(),
{
    broadcast use vstd::multiset::group_multiset_axioms;
    broadcast use vstd::seq_lib::group_to_multiset_ensures;

    if m.len() == 0 {
        let s = Seq::<RowModel>::empty();
        assert(m =~= Multiset::empty());
        assert(s.to_multiset() =~= m);
        s
    } else {
        let x = m.choose();
        let t = lemma_listed(m.remove(x));
        assert(t.push(x).to_multiset() =~= m);
        t.push(x)
    }
}

/// Every multiset of rows has a sorted list.
proof fn lemma_sorted_holds(m: Multiset<RowModel>)
    ensures
        sorted(m).to_multiset() == m,
{
    let rows = lemma_listed(m);
    let leq = |a: RowModel, b: RowModel| !crate::values::row_lt(b, a);
    assert forall|a: RowModel| #[trigger] leq(a, a) by {
        crate::values::lemma_row_lt_total(a, a);
    }
    assert forall|a: RowModel, b: RowModel| #[trigger] leq(a, b) && #[trigger] leq(b, a) implies a
        == b by {
        crate::values::lemma_row_lt_total(a, b);
    }
    assert forall|a: RowModel, b: RowModel, c: RowModel| #[trigger]
        leq(a, b) && #[trigger] leq(b, c) implies leq(a, c) by {
        crate::values::lemma_row_lt_total(a, b);
        crate::values::lemma_row_lt_total(b, c);
        crate::values::lemma_row_lt_total(a, c);
        if crate::values::row_lt(a, b) && crate::values::row_lt(b, c) {
            crate::values::lemma_row_lt_trans(a, b, c);
        }
    }
    assert forall|a: RowModel, b: RowModel| #[trigger] leq(a, b) || #[trigger] leq(b, a) by {
        crate::values::lemma_row_lt_total(a, b);
    }
    assert(vstd::relations::total_ordering(leq));
    rows.lemma_sort_by_ensures(leq);
    let s = rows.sort_by(leq);
    assert forall|i: int, j: int| 0 <= i < j < s.len() implies !crate::values::row_lt(
        #[trigger] s[j],
        #[trigger] s[i],
    ) by {
        assert(leq(s[i], s[j]));
    }
    assert(crate::values::rows_sorted(s) && s.to_multiset() == rows.to_multiset());
}

/// How often a row stands among those that the sides share, and among the others.
pub proof fn lemma_shared_counts(ours: Seq<RowModel>, theirs: Seq<RowModel>, row: RowModel)
    ensures
        ({
            let o = ours.to_multiset().count(row);
            let t = theirs.to_multiset().count(row);
            &&& sorted(shared(ours, theirs)).to_multiset().count(row) == if o < t {
                o
            } else {
                t
            }
            &&& sorted(unshared(ours, theirs)).to_multiset().count(row) == if o < t {
                t - o
            } else {
                o - t
            }
        }),
{
    broadcast use vstd::multiset::group_multiset_axioms;

    lemma_counts(ours.to_multiset(), theirs.to_multiset());
    lemma_counts(theirs.to_multiset(), ours.to_multiset());
    lemma_sorted_holds(shared(ours, theirs));
    lemma_sorted_holds(unshared(ours, theirs));
}

/// Where both sides of a table without a primary key have left the base and each other,
/// any divergence is a conflict: there is one, over every row that one side has more of,
/// and over nothing else; the other rows stay as often as both sides have them.
pub proof fn law_divergence_is_a_conflict(
    base: Seq<RowModel>,
    ours: Seq<RowModel>,
    theirs: Seq<RowModel>,
    columns: Seq<Seq<char>>,
    row: RowModel,
)
    requires
        ours.to_multiset() != theirs.to_multiset(),
        base.to_multiset() != ours.to_multiset(),
        base.to_multiset() != theirs.to_multiset(),
    ensures
        ({
            let m = row_merge(base, ours, theirs, seq![], columns);
            let o = ours.to_multiset().count(row);
            let t = theirs.to_multiset().count(row);
            &&& m.conflicts.len() > 0
            &&& o != t <==> m.conflicts.contains(lonely_conflict(base, ours, theirs, row))
            &&& m.rows.to_multiset().count((row, row)) == if o < t {
                o
            } else {
                t
            }
        }),
{
    broadcast use vstd::seq_lib::group_to_multiset_ensures;
    broadcast use vstd::multiset::group_multiset_axioms;

    lemma_counts(ours.to_multiset(), theirs.to_multiset());
    lemma_counts(theirs.to_multiset(), ours.to_multiset());
    let apart = unshared(ours, theirs);
    let list = sorted(apart);
    let f = |r: RowModel| lonely_conflict(base, ours, theirs, r);
    let m = row_merge(base, ours, theirs, seq![], columns);
    assert(theirs != base && ours != base);
    assert(m.conflicts == list.map_values(f));
    lemma_sorted_holds(apart);
    lemma_sorted_holds(shared(ours, theirs));
    if m.conflicts.len() == 0 {
        assert(apart.len() == 0);
        assert forall|r: RowModel| ours.to_multiset().count(r) == theirs.to_multiset().count(r) by {
            assert(apart.count(r) == 0);
        }
        assert(ours.to_multiset() =~= theirs.to_multiset());
    }
    if apart.count(row) > 0 {
        assert(list.contains(row));
        let j = choose|j: int| 0 <= j < list.len() && list[j] == row;
        assert(m.conflicts[j] == f(row));
    }
    if m.conflicts.contains(f(row)) {
        let j = choose|j: int| 0 <= j < m.conflicts.len() && m.conflicts[j] == f(row);
        assert(m.conflicts[j] == f(list[j]));
        assert(f(list[j]).1.pk == list[j] && f(row).1.pk == row);
        assert(list.contains(row));
        assert(apart.count(row) > 0);
    }
    lemma_whole_count(sorted(shared(ours, theirs)), row);
}

/// A row stands under itself as often as it stands in the list.
proof fn lemma_whole_count(s: Seq<RowModel>, row: RowModel)
    ensures
        whole(s).to_multiset().count((row, row)) == s.to_multiset().count(row),
    decreases s.len(),
{
    broadcast use vstd::seq_lib::group_to_multiset_ensures;
    broadcast use vstd::multiset::group_multiset_axioms;

    if s.len() > 0 {
        let d = s.drop_last();
        lemma_whole_count(d, row);
        assert(s =~= d.push(s.last()));
        assert(whole(s) =~= whole(d).push((s.last(), s.last())));
    } else {
        assert(s =~= seq![]);
        assert(whole(s) =~= seq![]);
    }
}

// ---------------------------------------------------------------------------
// What a merge does row by row
// ---------------------------------------------------------------------------

/// The key of a row is made of its cells in the key's columns, in the order of the key;
/// the place of the column of key cell `j` is given back.
pub proof fn law_key_is_made_of_cells(
    row: RowModel,
    pk: Seq<Seq<char>>,
    columns: Seq<Seq<char>>,
    j: int,
) -> (i: int)
    requires
        row.len() == columns.len(),
        forall|k: int| 0 <= k < pk.len() ==> columns.contains(#[trigger] pk[k]),
        0 <= j < pk.len(),
    ensures
        pk_cells(row, pk, columns).len() == pk.len(),
        0 <= i < columns.len(),
        columns[i] == pk[j],
        !columns.take(i).contains(pk[j]),
        pk_cells(row, pk, columns)[j] == row[i],
    decreases pk.len(),
{
    let rest = pk.drop_first();
    assert forall|k: int| 0 <= k < rest.len() implies columns.contains(#[trigger] rest[k]) by {
        assert(rest[k] == pk[k + 1]);
    }
    assert(columns.contains(pk[0]));
    lemma_name_from(columns, pk[0], 0);
    let first = column_index(columns, pk[0])->0;
    if rest.len() == 0 {
        assert(pk_cells(row, rest, columns).len() == 0);
        first
    } else if j == 0 {
        let _ = law_key_is_made_of_cells(row, rest, columns, 0);
        first
    } else {
        law_key_is_made_of_cells(row, rest, columns, j - 1)
    }
}

/// Is this what a list of rows holds under a key: one of its rows with that key, or none
/// where no row has it?
pub open spec fn holds_under(
    rows: Seq<RowModel>,
    pk: Seq<Seq<char>>,
    columns: Seq<Seq<char>>,
    key: RowModel,
    row: Option<RowModel>,
) -> bool {
    match row {
        Some(r) => rows.contains(r) && pk_cells(r, pk, columns) == key,
        None => forall|i: int|
            0 <= i < rows.len() ==> pk_cells(#[trigger] rows[i], pk, columns) != key,
    }
}

/// Do the changes of two sides to one row go together cell by cell?
pub open spec fn cells_go_together(b: RowModel, o: RowModel, t: RowModel) -> bool {
    forall|i: int| 0 <= i < b.len() ==> #[trigger] o[i] == b[i] || t[i] == b[i] || o[i] == t[i]
}

/// A row with the cells that either side changed.
pub open spec fn with_both_changes(b: RowModel, o: RowModel, t: RowModel) -> RowModel {
    Seq::new(
        b.len(),
        |i: int|
            if o[i] == b[i] {
                t[i]
            } else {
                o[i]
            },
    )
}

/// What a merge of one key comes to: the row of the side that changed it, the row with
/// both changes, or none where the changes do not go together.
pub open spec fn row_rule(
    b: Option<RowModel>,
    o: Option<RowModel>,
    t: Option<RowModel>,
) -> Result<Option<RowModel>, ()> {
    if t == b || o == t {
        Ok(o)
    } else if o == b {
        Ok(t)
    } else {
        match (b, o, t) {
            (Some(x), Some(y), Some(z)) => if cells_go_together(x, y, z) {
                Ok(Some(with_both_changes(x, y, z)))
            } else {
                Err(())
            },
            _ => Err(()),
        }
    }
}

/// The rows of equal keys have the same cells in the key's columns, and so has a row that
/// takes each cell from one of them.
proof fn lemma_key_cells_taken(
    b: RowModel,
    o: RowModel,
    t: RowModel,
    r: RowModel,
    pk: Seq<Seq<char>>,
    columns: Seq<Seq<char>>,
)
    requires
        b.len() == columns.len() && o.len() == columns.len() && t.len() == columns.len(),
        r.len() == columns.len(),
        pk_cells(b, pk, columns) == pk_cells(o, pk, columns),
        pk_cells(o, pk, columns) == pk_cells(t, pk, columns),
        forall|i: int| 0 <= i < r.len() ==> #[trigger] r[i] == b[i] || r[i] == o[i] || r[i] == t[i],
    ensures
        pk_cells(r, pk, columns) == pk_cells(o, pk, columns),
    decreases pk.len(),
{
    if pk.len() > 0 {
        let rest = pk.drop_first();
        lemma_name_from(columns, pk[0], 0);
        if let Some(i) = column_index(columns, pk[0]) {
            let rb = pk_cells(b, rest, columns);
            let ro = pk_cells(o, rest, columns);
            let rt = pk_cells(t, rest, columns);
            let xb = seq![b[i]] + rb;
            let xo = seq![o[i]] + ro;
            let xt = seq![t[i]] + rt;
            assert(xb == xo && xo == xt);
            assert(xb[0] == b[i] && xo[0] == o[i] && xt[0] == t[i]);
            assert(rb =~= xb.skip(1));
            assert(ro =~= xo.skip(1));
            assert(rt =~= xt.skip(1));
            lemma_key_cells_taken(b, o, t, r, rest, columns);
            assert(r[i] == o[i]);
        } else {
            lemma_key_cells_taken(b, o, t, r, rest, columns);
        }
    }
}

/// What becomes of a key is what the rule says, for rows as wide as the table and named by
/// their own key.
proof fn lemma_merge_key_rule(
    key: RowModel,
    b: Option<RowModel>,
    o: Option<RowModel>,
    t: Option<RowModel>,
    pk: Seq<Seq<char>>,
    columns: Seq<Seq<char>>,
)
    requires
        b matches Some(r) ==> r.len() == columns.len() && pk_cells(r, pk, columns) == key,
        o matches Some(r) ==> r.len() == columns.len() && pk_cells(r, pk, columns) == key,
        t matches Some(r) ==> r.len() == columns.len() && pk_cells(r, pk, columns) == key,
    ensures
        match row_rule(b, o, t) {
            Ok(Some(r)) => merge_key(key, b, o, t, pk, columns) == KeyOutcome::Row(r) && r.len()
                == columns.len() && pk_cells(r, pk, columns) == key,
            Ok(None) => merge_key(key, b, o, t, pk, columns) == KeyOutcome::Gone,
            Err(_) => merge_key(key, b, o, t, pk, columns) == KeyOutcome::Clash(
                ConflictRow { pk: key, base: b, ours: o, theirs: t },
            ),
        },
{
    if let (Some(x), Some(y), Some(z)) = (b, o, t) {
        let clash = exists|i: int|
            0 <= i < columns.len() && #[trigger] cell_clash(
                cell_at(x, i),
                cell_at(y, i),
                cell_at(z, i),
            );
        if clash {
            let i = choose|i: int|
                0 <= i < columns.len() && #[trigger] cell_clash(
                    cell_at(x, i),
                    cell_at(y, i),
                    cell_at(z, i),
                );
            assert(!(y[i] == x[i] || z[i] == x[i] || y[i] == z[i]));
            assert(!cells_go_together(x, y, z));
        } else {
            assert forall|i: int| 0 <= i < x.len() implies #[trigger] y[i] == x[i] || z[i] == x[i]
                || y[i] == z[i] by {
                assert(!cell_clash(cell_at(x, i), cell_at(y, i), cell_at(z, i)));
            }
            assert(cells_go_together(x, y, z));
            let f = |i: int| merged_cell(cell_at(x, i), cell_at(y, i), cell_at(z, i));
            let r = with_both_changes(x, y, z);
            assert(Seq::new(columns.len(), f) =~= r);
            if forall|i: int|
                0 <= i < columns.len() ==> !cell_moved(
                    #[trigger] cell_at(x, i),
                    cell_at(y, i),
                    cell_at(z, i),
                ) {
                assert forall|i: int| 0 <= i < columns.len() implies y[i] == x[i] && z[i]
                    == x[i] by {
                    assert(!cell_moved(cell_at(x, i), cell_at(y, i), cell_at(z, i)));
                }
                assert(y =~= x && z =~= x);
            }
            if z == x || y == z {
                assert(r =~= y);
            } else if y == x {
                assert(r =~= z);
            } else {
                lemma_key_cells_taken(x, y, z, r, pk, columns);
            }
        }
    }
}

/// A list with distinct keys holds one thing under a key: what its index gives.
pub proof fn lemma_index_holds(
    rows: Seq<RowModel>,
    pk: Seq<Seq<char>>,
    columns: Seq<Seq<char>>,
    key: RowModel,
    row: Option<RowModel>,
)
    requires
        distinct_keys(rows, pk, columns),
        holds_under(rows, pk, columns, key, row),
    ensures
        lookup(crate::assoc::assoc(keyed(rows, pk, columns)), key) == row,
        crate::assoc::assoc(keyed(rows, pk, columns)).dom().finite(),
{
    let e = keyed(rows, pk, columns);
    crate::assoc::lemma_assoc_dom(e, key);
    match row {
        Some(r) => {
            let i = choose|i: int| 0 <= i < rows.len() && rows[i] == r;
            assert(e[i] == (key, r));
            assert forall|j: int| 0 <= j < i implies (#[trigger] e[j]).0 != e[i].0 by {
                assert(pk_cells(rows[j], pk, columns) != pk_cells(rows[i], pk, columns));
            }
            crate::assoc::lemma_assoc_first(e, i);
        },
        None => {
            if assoc_has(e, key) {
                let i = choose|i: int| 0 <= i < e.len() && (#[trigger] e[i]).0 == key;
                assert(pk_cells(rows[i], pk, columns) == key);
            }
        },
    }
}

spec fn assoc_has(e: Seq<(RowModel, RowModel)>, key: RowModel) -> bool {
    exists|i: int| 0 <= i < e.len() && (#[trigger] e[i]).0 == key
}

/// Something is held under each key.
pub proof fn lemma_holds_something(
    rows: Seq<RowModel>,
    pk: Seq<Seq<char>>,
    columns: Seq<Seq<char>>,
    key: RowModel,
) -> (row: Option<RowModel>)
    ensures
        holds_under(rows, pk, columns, key, row),
        row matches Some(r) ==> rows.contains(r),
{
    if exists|i: int| 0 <= i < rows.len() && pk_cells(#[trigger] rows[i], pk, columns) == key {
        let i = choose|i: int|
            0 <= i < rows.len() && pk_cells(#[trigger] rows[i], pk, columns) == key;
        assert(rows.contains(rows[i]));
        Some(rows[i])
    } else {
        None
    }
}

/// Rows kept and conflicts, key by key.
proof fn lemma_kept_by_key(s: Sides, keys: Seq<RowModel>, key: RowModel)
    requires
        keys.no_duplicates(),
    ensures
        forall|r: RowModel|
            kept_rows(s, keys).contains((key, r)) <==> keys.contains(key) && #[trigger] key_outcome(
                s,
                key,
            ) == KeyOutcome::Row(r),
        forall|c: ConflictModel| #[trigger]
            clashes(s, keys).contains((Seq::<char>::empty(), c)) <==> exists|k: RowModel|
                keys.contains(k) && #[trigger] key_outcome(s, k) == KeyOutcome::Clash(c),
        forall|i: int|
            0 <= i < clashes(s, keys).len() ==> (#[trigger] clashes(s, keys)[i]).0 == Seq::<
                char,
            >::empty(),
        forall|i: int|
            0 <= i < kept_rows(s, keys).len() ==> keys.contains(
                (#[trigger] kept_rows(s, keys)[i]).0,
            ) && key_outcome(s, kept_rows(s, keys)[i].0) == KeyOutcome::Row(
                kept_rows(s, keys)[i].1,
            ),
    decreases keys.len(),
{
    let none = Seq::<char>::empty();
    let all = kept_rows(s, keys);
    let cs = clashes(s, keys);
    if keys.len() > 0 {
        let d = keys.drop_last();
        let x = keys.last();
        lemma_kept_by_key(s, d, key);
        let rows = kept_rows(s, d);
        let before = clashes(s, d);
        assert forall|k: RowModel| #[trigger] keys.contains(k) <==> d.contains(k) || k == x by {
            if keys.contains(k) {
                let i = choose|i: int| 0 <= i < keys.len() && keys[i] == k;
                if i < d.len() {
                    assert(d[i] == k);
                }
            }
            if d.contains(k) {
                let i = choose|i: int| 0 <= i < d.len() && d[i] == k;
                assert(keys[i] == k);
            }
            assert(keys[keys.len() - 1] == x);
        }
        assert forall|r: RowModel| all.contains((key, r)) <==> keys.contains(key)
            && #[trigger] key_outcome(s, key) == KeyOutcome::Row(r) by {
            if all.contains((key, r)) {
                let i = choose|i: int| 0 <= i < all.len() && all[i] == (key, r);
                if i < rows.len() {
                    assert(rows[i] == (key, r));
                    assert(rows.contains((key, r)));
                }
            }
            if rows.contains((key, r)) {
                let i = choose|i: int| 0 <= i < rows.len() && rows[i] == (key, r);
                assert(all[i] == (key, r));
            }
            if key == x && key_outcome(s, key) == KeyOutcome::Row(r) {
                assert(all[rows.len() as int] == (key, r));
            }
        }
        assert forall|c: ConflictModel| #[trigger] cs.contains((none, c)) <==> exists|k: RowModel|
            keys.contains(k) && #[trigger] key_outcome(s, k) == KeyOutcome::Clash(c) by {
            if cs.contains((none, c)) {
                let i = choose|i: int| 0 <= i < cs.len() && cs[i] == (none, c);
                if i < before.len() {
                    assert(before[i] == (none, c));
                    assert(before.contains((none, c)));
                    let k = choose|k: RowModel|
                        d.contains(k) && #[trigger] key_outcome(s, k) == KeyOutcome::Clash(c);
                    assert(keys.contains(k) && key_outcome(s, k) == KeyOutcome::Clash(c));
                } else {
                    assert(keys.contains(x) && key_outcome(s, x) == KeyOutcome::Clash(c));
                }
            }
            if exists|k: RowModel|
                keys.contains(k) && #[trigger] key_outcome(s, k) == KeyOutcome::Clash(c) {
                let k = choose|k: RowModel|
                    keys.contains(k) && #[trigger] key_outcome(s, k) == KeyOutcome::Clash(c);
                if k == x {
                    assert(cs[before.len() as int] == (none, c));
                } else {
                    assert(d.contains(k) && key_outcome(s, k) == KeyOutcome::Clash(c));
                    assert(before.contains((none, c)));
                    let i = choose|i: int| 0 <= i < before.len() && before[i] == (none, c);
                    assert(cs[i] == (none, c));
                }
            }
        }
        assert forall|i: int| 0 <= i < cs.len() implies (#[trigger] cs[i]).0 == none by {
            if i < before.len() {
                assert(before[i] == cs[i]);
            }
        }
        assert forall|i: int| 0 <= i < all.len() implies keys.contains((#[trigger] all[i]).0)
            && key_outcome(s, all[i].0) == KeyOutcome::Row(all[i].1) by {
            if i < rows.len() {
                assert(rows[i] == all[i]);
            }
        }
    }
}

/// The merge of the rows of a table goes by the rule, key by key. Each kept row stands
/// under its own key, once.
pub proof fn lemma_row_merge_rule(
    base: Seq<RowModel>,
    ours: Seq<RowModel>,
    theirs: Seq<RowModel>,
    pk: Seq<Seq<char>>,
    columns: Seq<Seq<char>>,
    key: RowModel,
    b: Option<RowModel>,
    o: Option<RowModel>,
    t: Option<RowModel>,
)
    requires
        pk.len() > 0,
        distinct_keys(base, pk, columns),
        distinct_keys(ours, pk, columns),
        distinct_keys(theirs, pk, columns),
        as_wide(base, columns),
        as_wide(ours, columns),
        as_wide(theirs, columns),
        holds_under(base, pk, columns, key, b),
        holds_under(ours, pk, columns, key, o),
        holds_under(theirs, pk, columns, key, t),
    ensures
        ({
            let m = row_merge(base, ours, theirs, pk, columns);
            &&& forall|i: int|
                0 <= i < m.rows.len() ==> pk_cells((#[trigger] m.rows[i]).1, pk, columns)
                    == m.rows[i].0
            &&& forall|i: int, j: int|
                0 <= i < j < m.rows.len() ==> (#[trigger] m.rows[i]).0 != (#[trigger] m.rows[j]).0
            &&& match row_rule(b, o, t) {
                Ok(Some(r)) => m.rows.contains((key, r)),
                _ => forall|i: int| 0 <= i < m.rows.len() ==> (#[trigger] m.rows[i]).0 != key,
            }
            &&& forall|i: int|
                0 <= i < m.conflicts.len() && (#[trigger] m.conflicts[i]).1.pk == key
                    ==> row_rule(b, o, t) is Err && m.conflicts[i].1 == (ConflictRow {
                    pk: key,
                    base: b,
                    ours: o,
                    theirs: t,
                })
            &&& row_rule(b, o, t) is Err ==> m.conflicts.contains(
                (
                    Seq::<char>::empty(),
                    ConflictRow { pk: key, base: b, ours: o, theirs: t },
                ),
            )
        }),
{
    let m = row_merge(base, ours, theirs, pk, columns);
    let none = Seq::<char>::empty();
    lemma_index_holds(base, pk, columns, key, b);
    lemma_index_holds(ours, pk, columns, key, o);
    lemma_index_holds(theirs, pk, columns, key, t);
    if theirs == base || ours == base {
        let rows = if theirs == base {
            ours
        } else {
            theirs
        };
        let kept = if theirs == base {
            o
        } else {
            t
        };
        assert(m.rows == keyed(rows, pk, columns));
        assert(row_rule(b, o, t) == Ok::<Option<RowModel>, ()>(kept));
        assert forall|i: int, j: int| 0 <= i < j < m.rows.len() implies (#[trigger] m.rows[i]).0
            != (#[trigger] m.rows[j]).0 by {
            assert(pk_cells(rows[i], pk, columns) != pk_cells(rows[j], pk, columns));
        }
        match kept {
            Some(r) => {
                let i = choose|i: int| 0 <= i < rows.len() && rows[i] == r;
                assert(m.rows[i] == (key, r));
            },
            None => {
                assert forall|i: int| 0 <= i < m.rows.len() implies (#[trigger] m.rows[i]).0
                    != key by {
                    assert(pk_cells(rows[i], pk, columns) != key);
                }
            },
        }
    } else {
        let s = sides_of(base, ours, theirs, pk, columns);
        let keys = in_order(all_keys(s));
        lemma_in_order(all_keys(s));
        lemma_kept_by_key(s, keys, key);
        lemma_sides_rule(base, ours, theirs, pk, columns, key, b, o, t);
        assert forall|i: int| 0 <= i < m.rows.len() implies pk_cells(
            (#[trigger] m.rows[i]).1,
            pk,
            columns,
        ) == m.rows[i].0 by {
            let k = m.rows[i].0;
            let kb = lemma_holds_something(base, pk, columns, k);
            let ko = lemma_holds_something(ours, pk, columns, k);
            let kt = lemma_holds_something(theirs, pk, columns, k);
            lemma_sides_rule(base, ours, theirs, pk, columns, k, kb, ko, kt);
        }
        lemma_kept_distinct(s, keys);
        assert forall|i: int|
            0 <= i < m.conflicts.len() && (#[trigger] m.conflicts[i]).1.pk == key implies row_rule(
            b,
            o,
            t,
        ) is Err && m.conflicts[i].1 == (ConflictRow {
            pk: key,
            base: b,
            ours: o,
            theirs: t,
        }) by {
            let c = m.conflicts[i].1;
            assert(m.conflicts[i] == (none, c));
            assert(m.conflicts.contains((none, c)));
            let k = choose|k: RowModel|
                keys.contains(k) && #[trigger] key_outcome(s, k) == KeyOutcome::Clash(c);
            let kb = lemma_holds_something(base, pk, columns, k);
            let ko = lemma_holds_something(ours, pk, columns, k);
            let kt = lemma_holds_something(theirs, pk, columns, k);
            lemma_sides_rule(base, ours, theirs, pk, columns, k, kb, ko, kt);
            assert(k == key);
        }
        if row_rule(b, o, t) is Err {
            assert(keys.contains(key));
            assert(key_outcome(s, key) == KeyOutcome::Clash(
                ConflictRow { pk: key, base: b, ours: o, theirs: t },
            ));
        }
        if let Ok(Some(r)) = row_rule(b, o, t) {
            assert(keys.contains(key));
        } else {
            assert forall|i: int| 0 <= i < m.rows.len() implies (#[trigger] m.rows[i]).0 != key by {
                assert(key_outcome(s, m.rows[i].0) == KeyOutcome::Row(m.rows[i].1));
            }
        }
    }
}

proof fn lemma_kept_distinct(s: Sides, keys: Seq<RowModel>)
    requires
        keys.no_duplicates(),
    ensures
        forall|i: int, j: int|
            0 <= i < j < kept_rows(s, keys).len() ==> (#[trigger] kept_rows(s, keys)[i]).0 != (
            #[trigger] kept_rows(s, keys)[j]).0,
    decreases keys.len(),
{
    if keys.len() > 0 {
        let d = keys.drop_last();
        lemma_kept_distinct(s, d);
        lemma_kept_by_key(s, d, keys.last());
        let rows = kept_rows(s, d);
        let all = kept_rows(s, keys);
        assert forall|i: int, j: int| 0 <= i < j < all.len() implies (#[trigger] all[i]).0 != (
        #[trigger] all[j]).0 by {
            assert(all[i] == rows[i]);
            if j < rows.len() {
                assert(all[j] == rows[j]);
            } else {
                assert(d.contains(rows[i].0));
                let k = choose|k: int| 0 <= k < d.len() && d[k] == rows[i].0;
                assert(keys[k] != keys[keys.len() - 1]);
            }
        }
    }
}

/// What becomes of a key of the sides is what the rule says of the rows under it.
proof fn lemma_sides_rule(
    base: Seq<RowModel>,
    ours: Seq<RowModel>,
    theirs: Seq<RowModel>,
    pk: Seq<Seq<char>>,
    columns: Seq<Seq<char>>,
    key: RowModel,
    b: Option<RowModel>,
    o: Option<RowModel>,
    t: Option<RowModel>,
)
    requires
        distinct_keys(base, pk, columns),
        distinct_keys(ours, pk, columns),
        distinct_keys(theirs, pk, columns),
        as_wide(base, columns),
        as_wide(ours, columns),
        as_wide(theirs, columns),
        holds_under(base, pk, columns, key, b),
        holds_under(ours, pk, columns, key, o),
        holds_under(theirs, pk, columns, key, t),
    ensures
        ({
            let s = sides_of(base, ours, theirs, pk, columns);
            &&& all_keys(s).finite()
            &&& all_keys(s).contains(key) <==> b is Some || o is Some || t is Some
            &&& match row_rule(b, o, t) {
                Ok(Some(r)) => key_outcome(s, key) == KeyOutcome::Row(r) && pk_cells(r, pk, columns)
                    == key,
                Ok(None) => key_outcome(s, key) == KeyOutcome::Gone,
                Err(_) => key_outcome(s, key) == KeyOutcome::Clash(
                    ConflictRow { pk: key, base: b, ours: o, theirs: t },
                ),
            }
        }),
{
    lemma_index_holds(base, pk, columns, key, b);
    lemma_index_holds(ours, pk, columns, key, o);
    lemma_index_holds(theirs, pk, columns, key, t);
    if let Some(r) = b {
        let i = choose|i: int| 0 <= i < base.len() && base[i] == r;
        assert(base[i].len() == columns.len());
    }
    if let Some(r) = o {
        let i = choose|i: int| 0 <= i < ours.len() && ours[i] == r;
        assert(ours[i].len() == columns.len());
    }
    if let Some(r) = t {
        let i = choose|i: int| 0 <= i < theirs.len() && theirs[i] == r;
        assert(theirs[i].len() == columns.len());
    }
    lemma_merge_key_rule(key, b, o, t, pk, columns);
}

} // verus!
