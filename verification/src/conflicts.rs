//! Merge conflicts and their resolution.
//!
//! Conflicts live only in working memory: they are never part of a commit, and
//! a commit is refused while any remain.

use vstd::prelude::*;

use crate::assoc::AssocMap;
use crate::merge::extract_pk;
use crate::model::{VersionError, VersionResult};
use crate::staging::{SnapModel, StoreModel, TableSnapshot, VcStore};
use crate::table_merge::{Fault, Tables, TablesModel};
use crate::text::{str_eq, Dup, Same};
use crate::values::{RowModel, VcRow, VcValue};

verus! {

/// Why a row or table is in conflict, over the type of a text.
#[derive(Debug, Clone, PartialEq, Eq)]
pub enum ConflictKind<S = String> {
    Rows,
    Schema(S),
}

impl DeepView for ConflictKind {
    type V = ConflictKind<Seq<char>>;

    open spec fn deep_view(&self) -> ConflictKind<Seq<char>> {
        match *self {
            ConflictKind::Rows => ConflictKind::Rows,
            ConflictKind::Schema(d) => ConflictKind::Schema(d@),
        }
    }
}

impl Dup for ConflictKind {
    fn dup(&self) -> (r: Self) {
        match self {
            ConflictKind::Rows => ConflictKind::Rows,
            ConflictKind::Schema(d) => ConflictKind::Schema(d.clone()),
        }
    }
}

/// One conflict: of a row, or of the schemas of a table.
#[derive(Debug, Clone, PartialEq, Eq)]
pub struct ConflictEntry {
    pub table: String,
    pub pk: Vec<VcValue>,
    pub base: Option<VcRow>,
    pub ours: Option<VcRow>,
    pub theirs: Option<VcRow>,
    pub kind: ConflictKind,
    /// The whole table of each side of a schema conflict.
    pub ours_schema: Option<TableSnapshot>,
    pub theirs_schema: Option<TableSnapshot>,
}

/// What a conflict stands for.
pub struct EntryModel {
    pub table: Seq<char>,
    pub pk: RowModel,
    pub base: Option<RowModel>,
    pub ours: Option<RowModel>,
    pub theirs: Option<RowModel>,
    pub kind: ConflictKind<Seq<char>>,
    pub ours_schema: Option<SnapModel>,
    pub theirs_schema: Option<SnapModel>,
}

impl DeepView for ConflictEntry {
    type V = EntryModel;

    open spec fn deep_view(&self) -> EntryModel {
        EntryModel {
            table: self.table@,
            pk: self.pk.deep_view(),
            base: self.base.deep_view(),
            ours: self.ours.deep_view(),
            theirs: self.theirs.deep_view(),
            kind: self.kind.deep_view(),
            ours_schema: self.ours_schema.deep_view(),
            theirs_schema: self.theirs_schema.deep_view(),
        }
    }
}

impl Dup for ConflictEntry {
    fn dup(&self) -> (r: Self) {
        ConflictEntry {
            table: self.table.clone(),
            pk: self.pk.dup(),
            base: self.base.dup(),
            ours: self.ours.dup(),
            theirs: self.theirs.dup(),
            kind: self.kind.dup(),
            ours_schema: self.ours_schema.dup(),
            theirs_schema: self.theirs_schema.dup(),
        }
    }
}

/// Which side of a conflict wins.
#[derive(Debug, Clone, Copy, PartialEq, Eq, Structural)]
pub enum ResolveSide {
    Ours,
    Theirs,
}

// ---------------------------------------------------------------------------
// Resolution
// ---------------------------------------------------------------------------

/// The first conflict from `i` on of a table and key.
pub open spec fn entry_from(
    entries: Seq<EntryModel>,
    table: Seq<char>,
    pk: RowModel,
    i: int,
) -> Option<int>
    decreases entries.len() - i,
{
    if i >= entries.len() {
        None
    } else if entries[i].table == table && entries[i].pk == pk {
        Some(i)
    } else {
        entry_from(entries, table, pk, i + 1)
    }
}

/// The row that a side of a conflict has.
pub open spec fn side_row(e: EntryModel, side: ResolveSide) -> Option<RowModel> {
    match side {
        ResolveSide::Ours => e.ours,
        ResolveSide::Theirs => e.theirs,
    }
}

/// The table that a side of a schema conflict has.
pub open spec fn side_table(e: EntryModel, side: ResolveSide) -> Option<SnapModel> {
    match side {
        ResolveSide::Ours => e.ours_schema,
        ResolveSide::Theirs => e.theirs_schema,
    }
}

/// The key of a row of a table.
pub open spec fn key_in(snap: SnapModel, row: RowModel) -> RowModel {
    crate::merge::pk_cells(row, snap.pk, snap.columns)
}

/// The first row from `i` on with a key.
pub open spec fn keyed_row(snap: SnapModel, key: RowModel, i: int) -> Option<int>
    decreases snap.rows.len() - i,
{
    if i >= snap.rows.len() {
        None
    } else if key_in(snap, snap.rows[i]) == key {
        Some(i)
    } else {
        keyed_row(snap, key, i + 1)
    }
}

/// Rows with one key set to a row, or without the key.
pub open spec fn rows_applied(snap: SnapModel, key: RowModel, image: Option<RowModel>) -> Seq<
    RowModel,
> {
    match image {
        Some(row) => match keyed_row(snap, key, 0) {
            Some(i) => snap.rows.update(i, row),
            None => snap.rows.push(row),
        },
        None => snap.rows.filter(|r: RowModel| key_in(snap, r) != key),
    }
}

/// The first place from `i` on where a row stands.
pub open spec fn row_from(rows: Seq<RowModel>, row: RowModel, i: int) -> Option<int>
    decreases rows.len() - i,
{
    if i >= rows.len() {
        None
    } else if rows[i] == row {
        Some(i)
    } else {
        row_from(rows, row, i + 1)
    }
}

/// Rows of a table without a primary key, where a conflict is over one copy of a row:
/// our copy is there already, one that only the other side has is added, and one that
/// the chosen side does not have goes.
pub open spec fn copy_applied(
    rows: Seq<RowModel>,
    key: RowModel,
    ours: Option<RowModel>,
    image: Option<RowModel>,
) -> Seq<RowModel> {
    match (ours, image) {
        (None, Some(row)) => rows.push(row),
        (Some(_), None) => match row_from(rows, key, 0) {
            Some(i) => rows.remove(i),
            None => rows,
        },
        _ => rows,
    }
}

/// A working set with one row of one table set or deleted; a table that is not
/// there stays away.
pub open spec fn row_applied(
    work: TablesModel,
    table: Seq<char>,
    key: RowModel,
    ours: Option<RowModel>,
    image: Option<RowModel>,
) -> TablesModel {
    if work.dom().contains(table) {
        let snap = work[table];
        let rows = if snap.pk.len() == 0 {
            copy_applied(snap.rows, key, ours, image)
        } else {
            rows_applied(snap, key, image)
        };
        work.insert(table, SnapModel { rows, ..snap })
    } else {
        work
    }
}

/// A working set with the chosen side of a conflict in place.
pub open spec fn side_applied(
    work: TablesModel,
    table: Seq<char>,
    key: RowModel,
    e: EntryModel,
    side: ResolveSide,
) -> TablesModel {
    match e.kind {
        ConflictKind::Rows => row_applied(work, table, key, e.ours, side_row(e, side)),
        ConflictKind::Schema(_) => match side_table(e, side) {
            Some(snap) => work.insert(table, snap),
            None => work,
        },
    }
}

/// Resolve a conflict: the entry goes, the chosen side becomes the working
/// contents (of a paused rebase too) and waits for the host.
pub open spec fn resolution(s: StoreModel, table: Seq<char>, pk: RowModel, side: ResolveSide) -> (
    StoreModel,
    Result<(), Fault>,
) {
    match entry_from(s.conflicts, table, pk, 0) {
        None => (s, Err(VersionError::NoConflict(table))),
        Some(i) => {
            let e = s.conflicts[i];
            (
                StoreModel {
                    conflicts: s.conflicts.remove(i),
                    work: side_applied(s.work, table, pk, e, side),
                    rebase_state: match s.rebase_state {
                        Some(st) => Some(
                            crate::replay_state::RebaseStateModel {
                                rebase_work: side_applied(st.rebase_work, table, pk, e, side),
                                ..st
                            },
                        ),
                        None => None,
                    },
                    dirty_work: s.dirty_work.insert(table),
                    pending_resolve: s.pending_resolve.insert((table, pk), side_row(e, side)),
                    ..s
                },
                Ok(()),
            )
        },
    }
}

/// Resolve one conflict by taking a side.
pub fn resolve_conflict(store: &mut VcStore, table: &str, pk: &Vec<VcValue>, side: ResolveSide) -> (r:
    VersionResult<()>)
    ensures
        ({
            let (s, out) = resolution(old(store).deep_view(), table@, pk.deep_view(), side);
            final(store).deep_view() == s && crate::model::outcome(r) == out
        }),
{
    store.resolve_conflict(table, pk, side)
}

fn find_entry(entries: &Vec<ConflictEntry>, table: &str, pk: &Vec<VcValue>) -> (r: Option<usize>)
    ensures
        match entry_from(entries.deep_view(), table@, pk.deep_view(), 0) {
            Some(i) => r matches Some(k) && k == i && k < entries@.len(),
            None => r is None,
        },
{
    let ghost m = entries.deep_view();
    let mut i: usize = 0;
    while i < entries.len()
        invariant
            i <= entries@.len(),
            m == entries.deep_view(),
            entry_from(m, table@, pk.deep_view(), i as int) == entry_from(
                m,
                table@,
                pk.deep_view(),
                0,
            ),
        decreases entries.len() - i,
    {
        assert(m[i as int] == entries@[i as int].deep_view());
        if str_eq(entries[i].table.as_str(), table) && entries[i].pk.same(pk) {
            return Some(i);
        }
        i = i + 1;
    }
    None
}

/// The rows of a table without a key.
fn drop_key(snap: &TableSnapshot, pk: &Vec<VcValue>) -> (r: Vec<VcRow>)
    ensures
        r.deep_view() == snap.deep_view().rows.filter(
            |r: RowModel| key_in(snap.deep_view(), r) != pk.deep_view(),
        ),
{
    let ghost m = snap.deep_view();
    let ghost s = m.rows;
    let ghost p = |r: RowModel| key_in(snap.deep_view(), r) != pk.deep_view();
    let mut out: Vec<VcRow> = Vec::new();
    let mut i: usize = 0;
    proof {
        reveal(Seq::filter);
        assert(s.take(0).filter(p) =~= seq![]);
        assert(out.deep_view() =~= seq![]);
    }
    while i < snap.rows.len()
        invariant
            i <= snap.rows@.len(),
            m == snap.deep_view(),
            s == m.rows,
            p == (|r: RowModel| key_in(snap.deep_view(), r) != pk.deep_view()),
            out.deep_view() == s.take(i as int).filter(p),
        decreases snap.rows.len() - i,
    {
        proof {
            reveal(Seq::filter);
            assert(s.take(i + 1).drop_last() =~= s.take(i as int));
            assert(s.take(i + 1).last() == snap.rows@[i as int].deep_view());
        }
        let ghost before = out.deep_view();
        let key = extract_pk(&snap.rows[i], &snap.pk, &snap.columns);
        if !key.same(pk) {
            out.push(snap.rows[i].dup());
            assert(out.deep_view() =~= before.push(s[i as int]));
        }
        i = i + 1;
    }
    assert(s.take(i as int) =~= s);
    out
}

/// The first row with a key.
fn find_row(snap: &TableSnapshot, pk: &Vec<VcValue>) -> (r: Option<usize>)
    ensures
        match keyed_row(snap.deep_view(), pk.deep_view(), 0) {
            Some(i) => r matches Some(k) && k == i && k < snap.rows@.len(),
            None => r is None,
        },
{
    let ghost m = snap.deep_view();
    let mut i: usize = 0;
    while i < snap.rows.len()
        invariant
            i <= snap.rows@.len(),
            m == snap.deep_view(),
            keyed_row(m, pk.deep_view(), i as int) == keyed_row(m, pk.deep_view(), 0),
        decreases snap.rows.len() - i,
    {
        assert(m.rows[i as int] == snap.rows@[i as int].deep_view());
        let key = extract_pk(&snap.rows[i], &snap.pk, &snap.columns);
        if key.same(pk) {
            return Some(i);
        }
        i = i + 1;
    }
    None
}

/// Put one copy of a row of a table without a primary key in place.
fn apply_copy(
    rows: &mut Vec<VcRow>,
    key: &Vec<VcValue>,
    ours: &Option<VcRow>,
    image: Option<VcRow>,
)
    ensures
        final(rows).deep_view() == copy_applied(
            old(rows).deep_view(),
            key.deep_view(),
            ours.deep_view(),
            image.deep_view(),
        ),
{
    let ghost m = rows.deep_view();
    match (ours, image) {
        (None, Some(row)) => {
            let ghost x = row.deep_view();
            rows.push(row);
            assert(rows.deep_view() =~= m.push(x));
        },
        (Some(_), None) => {
            let mut i: usize = 0;
            while i < rows.len()
                invariant
                    i <= rows@.len(),
                    m == rows.deep_view(),
                    m == old(rows).deep_view(),
                    row_from(m, key.deep_view(), i as int) == row_from(m, key.deep_view(), 0),
                    ours.deep_view() is Some,
                    image.deep_view() is None,
                decreases rows.len() - i,
            {
                assert(m[i as int] == rows@[i as int].deep_view());
                if rows[i].values.same(key) {
                    let _ = rows.remove(i);
                    assert(rows.deep_view() =~= m.remove(i as int));
                    return;
                }
                i = i + 1;
            }
        },
        _ => {},
    }
}

/// Set or delete one row of a table's working contents.
fn apply_row_to_work(
    work: &mut Tables,
    table: &str,
    pk: &Vec<VcValue>,
    ours: &Option<VcRow>,
    image: Option<VcRow>,
)
    ensures
        final(work).deep_view() == row_applied(
            old(work).deep_view(),
            table@,
            pk.deep_view(),
            ours.deep_view(),
            image.deep_view(),
        ),
{
    let mut snap = match work.get(&table.to_owned()) {
        Some(s) => s.dup(),
        None => {
            return;
        },
    };
    let ghost m = snap.deep_view();
    assert(m.pk.len() == snap.pk@.len());
    if snap.pk.len() == 0 {
        apply_copy(&mut snap.rows, pk, ours, image);
        work.insert(table.to_owned(), snap);
        return;
    }
    match image {
        Some(row) => {
            let ghost x = row.deep_view();
            match find_row(&snap, pk) {
                Some(i) => {
                    snap.rows.set(i, row);
                    assert(snap.rows.deep_view() =~= m.rows.update(i as int, x));
                },
                None => {
                    snap.rows.push(row);
                    assert(snap.rows.deep_view() =~= m.rows.push(x));
                },
            }
        },
        None => {
            let rows = drop_key(&snap, pk);
            snap.rows = rows;
        },
    }
    work.insert(table.to_owned(), snap);
}

/// Put the chosen side of a conflict in place.
fn apply_side(work: &mut Tables, table: &str, pk: &Vec<VcValue>, e: &ConflictEntry, side: ResolveSide)
    ensures
        final(work).deep_view() == side_applied(
            old(work).deep_view(),
            table@,
            pk.deep_view(),
            e.deep_view(),
            side,
        ),
{
    match &e.kind {
        ConflictKind::Rows => {
            let image = match side {
                ResolveSide::Ours => e.ours.dup(),
                ResolveSide::Theirs => e.theirs.dup(),
            };
            apply_row_to_work(work, table, pk, &e.ours, image);
        },
        ConflictKind::Schema(_) => {
            let snap = match side {
                ResolveSide::Ours => e.ours_schema.dup(),
                ResolveSide::Theirs => e.theirs_schema.dup(),
            };
            if let Some(s) = snap {
                work.insert(table.to_owned(), s);
            }
        },
    }
}

impl VcStore {
    /// Resolve a conflict. A conflict that is not there is an error: a resolution
    /// that was ignored would leave a conflict that blocks every commit.
    pub fn resolve_conflict(&mut self, table: &str, pk: &Vec<VcValue>, side: ResolveSide) -> (r:
        VersionResult<()>)
        ensures
            ({
                let (s, out) = resolution(old(self).deep_view(), table@, pk.deep_view(), side);
                final(self).deep_view() == s && crate::model::outcome(r) == out
            }),
    {
        let ghost s = self.deep_view();
        let pos = match find_entry(&self.conflicts, table, pk) {
            Some(i) => i,
            None => {
                return Err(VersionError::NoConflict(table.to_owned()));
            },
        };
        let entry = self.conflicts.remove(pos);
        proof {
            assert(self.conflicts.deep_view() =~= s.conflicts.remove(pos as int));
            assert(entry.deep_view() == s.conflicts[pos as int]);
        }
        apply_side(&mut self.work, table, pk, &entry, side);
        if let Some(st) = &self.rebase_state {
            let mut next = st.dup();
            apply_side(&mut next.rebase_work, table, pk, &entry, side);
            self.rebase_state = Some(next);
        }
        self.dirty_work.insert(table);
        let image = match side {
            ResolveSide::Ours => entry.ours,
            ResolveSide::Theirs => entry.theirs,
        };
        self.pending_resolve.insert((table.to_owned(), pk.dup()), image);
        Ok(())
    }

    /// The rows chosen by resolutions, which the host then applies: each table
    /// and key once.
    pub fn take_pending_resolve(&mut self) -> (r: Vec<(String, Vec<VcValue>, Option<VcRow>)>)
        ensures
            final(self).deep_view() == (StoreModel {
                pending_resolve: Map::empty(),
                ..old(self).deep_view()
            }),
            lists_images(old(self).deep_view().pending_resolve, r.deep_view()),
    {
        let ghost pending = self.pending_resolve.deep_view();
        let keys = self.pending_resolve.keys();
        let ghost k = keys.deep_view();
        let mut out: Vec<(String, Vec<VcValue>, Option<VcRow>)> = Vec::new();
        let mut i: usize = 0;
        while i < keys.len()
            invariant
                i <= keys@.len(),
                k == keys.deep_view(),
                k.to_set() == pending.dom(),
                pending == self.pending_resolve.deep_view(),
                self.deep_view() == old(self).deep_view(),
                out@.len() == i,
                forall|j: int|
                    0 <= j < i ==> (#[trigger] out.deep_view()[j]).0 == k[j].0
                        && out.deep_view()[j].1 == k[j].1 && out.deep_view()[j].2 == pending[k[j]],
            decreases keys.len() - i,
        {
            assert(k[i as int] == keys@[i as int].deep_view());
            assert(k.to_set().contains(k[i as int]));
            let ghost before = out.deep_view();
            match self.pending_resolve.get(&keys[i]) {
                Some(image) => {
                    out.push((keys[i].0.clone(), keys[i].1.dup(), image.dup()));
                    assert(out.deep_view() =~= before.push(
                        (k[i as int].0, k[i as int].1, pending[k[i as int]]),
                    ));
                },
                None => {},
            }
            i = i + 1;
        }
        self.pending_resolve = AssocMap::new();
        proof {
            let m = out.deep_view();
            assert forall|j: int| 0 <= j < m.len() implies pending.dom().contains(
                ((#[trigger] m[j]).0, m[j].1),
            ) && pending[(m[j].0, m[j].1)] == m[j].2 by {
                assert(k.to_set().contains(k[j]));
                assert(k[j] == (m[j].0, m[j].1));
            }
            assert forall|x: (Seq<char>, RowModel)| #[trigger] pending.dom().contains(
                x,
            ) implies exists|j: int| 0 <= j < m.len() && ((#[trigger] m[j]).0, m[j].1) == x by {
                assert(k.to_set().contains(x));
                let j = choose|j: int| 0 <= j < k.len() && k[j] == x;
                assert(m[j].0 == x.0);
            }
            assert forall|a: int, b: int| 0 <= a < b < m.len() implies (
            (#[trigger] m[a]).0 != (#[trigger] m[b]).0 || m[a].1 != m[b].1) by {
                assert(k[a] != k[b]);
            }
        }
        out
    }

    /// Every conflict.
    pub fn conflict_entries(&self) -> (r: Vec<ConflictEntry>)
        ensures
            r.deep_view() == self.deep_view().conflicts,
    {
        self.conflicts.dup()
    }
}

/// Does the list hold each table and key of the map once, with its row?
pub open spec fn lists_images(
    pending: Map<(Seq<char>, RowModel), Option<RowModel>>,
    list: Seq<(Seq<char>, RowModel, Option<RowModel>)>,
) -> bool {
    &&& forall|j: int|
        0 <= j < list.len() ==> pending.dom().contains(((#[trigger] list[j]).0, list[j].1))
            && pending[(list[j].0, list[j].1)] == list[j].2
    &&& forall|x: (Seq<char>, RowModel)| #[trigger]
        pending.dom().contains(x) ==> exists|j: int|
            0 <= j < list.len() && ((#[trigger] list[j]).0, list[j].1) == x
    &&& forall|a: int, b: int|
        0 <= a < b < list.len() ==> ((#[trigger] list[a]).0 != (#[trigger] list[b]).0 || list[a].1
            != list[b].1)
}

// ---------------------------------------------------------------------------
// Laws
// ---------------------------------------------------------------------------

proof fn lemma_entry_from(entries: Seq<EntryModel>, table: Seq<char>, pk: RowModel, i: int)
    requires
        0 <= i,
    ensures
        entry_from(entries, table, pk, i) matches Some(k) ==> i <= k < entries.len()
            && entries[k].table == table && entries[k].pk == pk,
        entry_from(entries, table, pk, i) is None ==> forall|k: int|
            i <= k < entries.len() ==> !((#[trigger] entries[k]).table == table && entries[k].pk
                == pk),
    decreases entries.len() - i,
{
    if i < entries.len() {
        lemma_entry_from(entries, table, pk, i + 1);
    }
}

/// A resolution succeeds exactly where there is a conflict of that table and
/// key, and then one conflict fewer remains; history is not touched either way.
pub proof fn law_resolution_drops_one(
    s: StoreModel,
    table: Seq<char>,
    pk: RowModel,
    side: ResolveSide,
)
    ensures
        ({
            let (t, out) = resolution(s, table, pk, side);
            &&& out is Ok <==> exists|k: int|
                0 <= k < s.conflicts.len() && (#[trigger] s.conflicts[k]).table == table
                    && s.conflicts[k].pk == pk
            &&& out is Ok ==> t.conflicts.len() == s.conflicts.len() - 1
            &&& out is Err ==> t == s
            &&& t.commits == s.commits && t.refs == s.refs && t.snapshots == s.snapshots
        }),
{
    lemma_entry_from(s.conflicts, table, pk, 0);
}

proof fn lemma_keyed_row(snap: SnapModel, key: RowModel, i: int)
    requires
        0 <= i,
    ensures
        keyed_row(snap, key, i) matches Some(k) ==> i <= k < snap.rows.len() && key_in(
            snap,
            snap.rows[k],
        ) == key,
    decreases snap.rows.len() - i,
{
    if i < snap.rows.len() {
        lemma_keyed_row(snap, key, i + 1);
    }
}

/// The chosen row is in the working table with a primary key afterwards; a deleted side
/// leaves no row of the key.
pub proof fn law_chosen_row_is_in_place(snap: SnapModel, key: RowModel, image: Option<RowModel>)
    ensures
        match image {
            Some(row) => rows_applied(snap, key, image).contains(row),
            None => forall|k: int|
                0 <= k < rows_applied(snap, key, image).len() ==> key_in(
                    snap,
                    #[trigger] rows_applied(snap, key, image)[k],
                ) != key,
        },
{
    let after = rows_applied(snap, key, image);
    match image {
        Some(row) => {
            lemma_keyed_row(snap, key, 0);
            match keyed_row(snap, key, 0) {
                Some(i) => {
                    assert(after[i] == row);
                },
                None => {
                    assert(after[snap.rows.len() as int] == row);
                },
            }
        },
        None => {
            let p = |r: RowModel| key_in(snap, r) != key;
            snap.rows.filter_lemma(p);
            assert forall|k: int| 0 <= k < after.len() implies key_in(
                snap,
                #[trigger] after[k],
            ) != key by {
                assert(p(after[k]));
            }
        },
    }
}

proof fn lemma_row_from(rows: Seq<RowModel>, row: RowModel, i: int)
    requires
        0 <= i,
    ensures
        match row_from(rows, row, i) {
            Some(k) => i <= k < rows.len() && rows[k] == row,
            None => forall|k: int| i <= k < rows.len() ==> rows[k] != row,
        },
    decreases rows.len() - i,
{
    if i < rows.len() {
        lemma_row_from(rows, row, i + 1);
    }
}

/// A resolution in a table without a primary key is about one copy of the row: our side
/// changes nothing, the other side's copy comes on top, and the copy that it does not
/// have goes.
pub proof fn law_chosen_copy_is_in_place(
    rows: Seq<RowModel>,
    key: RowModel,
    ours: Option<RowModel>,
    image: Option<RowModel>,
)
    requires
        ours is Some ==> rows.contains(key),
    ensures
        copy_applied(rows, key, ours, ours) == rows,
        copy_applied(rows, key, ours, image).to_multiset() == match (ours, image) {
            (None, Some(row)) => rows.to_multiset().insert(row),
            (Some(_), None) => rows.to_multiset().remove(key),
            _ => rows.to_multiset(),
        },
{
    broadcast use vstd::seq_lib::group_to_multiset_ensures;

    lemma_row_from(rows, key, 0);
    if let Some(k) = row_from(rows, key, 0) {
        vstd::seq_lib::to_multiset_remove(rows, k);
    }
}

/// Does a table have the chosen row of a key in place: the row itself, or none where the
/// side has none, every row of another key as often as before, and its columns as before?
pub open spec fn row_is_chosen(
    before: SnapModel,
    after: SnapModel,
    key: RowModel,
    chosen: Option<RowModel>,
) -> bool {
    &&& after.columns == before.columns && after.pk == before.pk && after.schema_sql
        == before.schema_sql
    &&& chosen matches Some(row) ==> after.rows.contains(row)
    &&& chosen is None ==> forall|k: int|
        0 <= k < after.rows.len() ==> crate::merge::pk_cells(
            #[trigger] after.rows[k],
            before.pk,
            before.columns,
        ) != key
    &&& forall|r: RowModel|
        crate::merge::pk_cells(r, before.pk, before.columns) != key && chosen != Some(r)
            ==> #[trigger] after.rows.to_multiset().count(r) == before.rows.to_multiset().count(r)
}

/// The first row of a key gives way to a row, or the row comes behind all others.
proof fn lemma_rows_applied(snap: SnapModel, key: RowModel, image: Option<RowModel>)
    ensures
        row_is_chosen(
            snap,
            SnapModel { rows: rows_applied(snap, key, image), ..snap },
            key,
            image,
        ),
{
    broadcast use vstd::seq_lib::group_to_multiset_ensures;

    law_chosen_row_is_in_place(snap, key, image);
    let after = rows_applied(snap, key, image);
    match image {
        Some(row) => {
            lemma_keyed_row(snap, key, 0);
            if let Some(i) = keyed_row(snap, key, 0) {
                vstd::seq_lib::to_multiset_update(snap.rows, i, row);
            } else {
                vstd::seq_lib::to_multiset_build(snap.rows, row);
            }
        },
        None => {
            let p = |r: RowModel| key_in(snap, r) != key;
            assert forall|r: RowModel| p(r) implies #[trigger] after.to_multiset().count(r)
                == snap.rows.to_multiset().count(r) by {
                lemma_filter_counts(snap.rows, p, r);
            }
        },
    }
}

proof fn lemma_filter_counts(rows: Seq<RowModel>, p: spec_fn(RowModel) -> bool, r: RowModel)
    requires
        p(r),
    ensures
        rows.filter(p).to_multiset().count(r) == rows.to_multiset().count(r),
    decreases rows.len(),
{
    broadcast use vstd::seq_lib::group_to_multiset_ensures;

    reveal(Seq::filter);
    if rows.len() > 0 {
        let d = rows.drop_last();
        lemma_filter_counts(d, p, r);
        assert(d.push(rows.last()) =~= rows);
        vstd::seq_lib::to_multiset_build(d, rows.last());
        if p(rows.last()) {
            vstd::seq_lib::to_multiset_build(d.filter(p), rows.last());
        }
    } else {
        assert(rows =~= seq![]);
        assert(rows.filter(p) =~= seq![]);
    }
}

/// Resolving a conflict puts the chosen side in place, in the working set and in that of a
/// paused rebase: of a conflict over a row of a table with a primary key the row that this
/// side has, of a conflict of schemas the whole table. Other tables stay, and the host is
/// told of the table and of the row.
pub proof fn law_resolution_takes_the_chosen_side(
    s: StoreModel,
    table: Seq<char>,
    pk: RowModel,
    side: ResolveSide,
    i: int,
    other: Seq<char>,
)
    requires
        0 <= i < s.conflicts.len(),
        s.conflicts[i].table == table && s.conflicts[i].pk == pk,
        forall|j: int|
            0 <= j < i ==> (#[trigger] s.conflicts[j]).table != table || s.conflicts[j].pk != pk,
        other != table,
    ensures
        ({
            let (t, out) = resolution(s, table, pk, side);
            let e = s.conflicts[i];
            let row = if side is Ours {
                e.ours
            } else {
                e.theirs
            };
            let whole = if side is Ours {
                e.ours_schema
            } else {
                e.theirs_schema
            };
            &&& out is Ok
            &&& t.conflicts == s.conflicts.take(i) + s.conflicts.skip(i + 1)
            &&& crate::merge::lookup(t.work, other) == crate::merge::lookup(s.work, other)
            &&& e.kind is Rows && s.work.dom().contains(table) && s.work[table].pk.len() > 0 ==> {
                t.work.dom().contains(table) && row_is_chosen(
                    s.work[table],
                    t.work[table],
                    pk,
                    row,
                )
            }
            &&& e.kind is Schema ==> (whole matches Some(x) ==> t.work.dom().contains(table)
                && t.work[table] == x)
            &&& s.rebase_state is Some <==> t.rebase_state is Some
            &&& s.rebase_state matches Some(st) ==> {
                let now = t.rebase_state->0;
                &&& now.steps == st.steps && now.replay_head == st.replay_head && now.onto
                    == st.onto && now.original_head == st.original_head
                &&& now.conflicted_hash == st.conflicted_hash && now.combined_message
                    == st.combined_message && now.work_before == st.work_before
                &&& crate::merge::lookup(now.rebase_work, other) == crate::merge::lookup(
                    st.rebase_work,
                    other,
                )
                &&& e.kind is Rows && st.rebase_work.dom().contains(table)
                    && st.rebase_work[table].pk.len() > 0 ==> now.rebase_work.dom().contains(table)
                    && row_is_chosen(st.rebase_work[table], now.rebase_work[table], pk, row)
                &&& e.kind is Schema ==> (whole matches Some(x) ==> now.rebase_work.dom().contains(
                    table,
                ) && now.rebase_work[table] == x)
            }
            &&& t.dirty_work == s.dirty_work.insert(table)
            &&& t.pending_resolve.dom().contains((table, pk)) && t.pending_resolve[(table, pk)]
                == row
            &&& t.merge_state == s.merge_state && t.staged == s.staged && t.unstaged == s.unstaged
            &&& t.tables == s.tables && t.violations == s.violations
        }),
{
    lemma_entry_from(s.conflicts, table, pk, 0);
    let k = entry_from(s.conflicts, table, pk, 0)->0;
    lemma_entry_is_first(s.conflicts, table, pk, 0, i);
    assert(k == i);
    assert(s.conflicts.remove(i) =~= s.conflicts.take(i) + s.conflicts.skip(i + 1));
    let e = s.conflicts[i];
    let row = side_row(e, side);
    if s.work.dom().contains(table) {
        lemma_rows_applied(s.work[table], pk, row);
    }
    if let Some(st) = s.rebase_state {
        if st.rebase_work.dom().contains(table) {
            lemma_rows_applied(st.rebase_work[table], pk, row);
        }
    }
}

proof fn lemma_entry_is_first(
    entries: Seq<EntryModel>,
    table: Seq<char>,
    pk: RowModel,
    from: int,
    i: int,
)
    requires
        0 <= from <= i < entries.len(),
        entries[i].table == table && entries[i].pk == pk,
        forall|j: int|
            from <= j < i ==> (#[trigger] entries[j]).table != table || entries[j].pk != pk,
    ensures
        entry_from(entries, table, pk, from) == Some(i),
    decreases i - from,
{
    if from < i {
        lemma_entry_is_first(entries, table, pk, from + 1, i);
    }
}

} // verus!
