//! The version-control state of a connection, and how its working set and the SQL
//! tables of the connection follow each other.
//!
//! Whoever runs SQL reads the tables, hands the contents over, and carries out the
//! statements that come back.

use vstd::prelude::*;

use crate::func_args::{FuncValue, ValueModel};
use crate::model::{CommitId, VersionError, VersionResult};
use crate::session::{SessionBranch, SessionModel};
use crate::staging::{SnapModel, StoreModel, TableSnapshot, VcStore};
use crate::table_merge::Fault;
use crate::text::{cat2, cat3, cat5, decimal_text, join, str_eq, Dup};
use crate::values::{RowModel, VcRow, VcValue};
use crate::vtab::quote_ident;

verus! {

broadcast use crate::text::lemma_bytes_deep_view;

// ---------------------------------------------------------------------------
// Answers
// ---------------------------------------------------------------------------

/// What a call of a function answers. A lost race is told apart, since clients try
/// again on it.
#[derive(Debug, Clone, PartialEq, Eq)]
pub enum Reply<S = String> {
    Value(FuncValue<S>),
    Busy(S),
    Failed(S),
}

impl DeepView for Reply {
    type V = Reply<Seq<char>>;

    open spec fn deep_view(&self) -> Reply<Seq<char>> {
        match *self {
            Reply::Value(v) => Reply::Value(v.deep_view()),
            Reply::Busy(s) => Reply::Busy(s@),
            Reply::Failed(s) => Reply::Failed(s@),
        }
    }
}

/// What a call answers.
pub open spec fn reply_of(r: Result<ValueModel, Fault>) -> Reply<Seq<char>> {
    match r {
        Ok(v) => Reply::Value(v),
        Err(e) => if e is DatabaseLocked {
            Reply::Busy(crate::model::version_message(e))
        } else {
            Reply::Failed(crate::model::version_message(e))
        },
    }
}

/// What a call answers.
pub fn dispatch(r: VersionResult<FuncValue>) -> (out: Reply)
    ensures
        out.deep_view() == reply_of(crate::model::outcome(r)),
{
    match r {
        Ok(v) => Reply::Value(v),
        Err(e) => match e {
            VersionError::DatabaseLocked => Reply::Busy(VersionError::DatabaseLocked.to_string()),
            e => Reply::Failed(e.to_string()),
        },
    }
}

// ---------------------------------------------------------------------------
// The state of a connection
// ---------------------------------------------------------------------------

/// A repository and the branch that the connection is on.
pub struct VcState {
    pub store: VcStore,
    pub session: SessionBranch,
}

/// What the state of a connection stands for.
pub struct StateModel {
    pub store: StoreModel,
    pub session: SessionModel,
}

impl DeepView for VcState {
    type V = StateModel;

    open spec fn deep_view(&self) -> StateModel {
        StateModel { store: self.store.deep_view(), session: self.session.deep_view() }
    }
}

/// May the SQL tables be read into the working set? Not while the working set is
/// ahead of them: in a rebase that waits, or with conflicts.
pub open spec fn may_capture(s: StoreModel) -> bool {
    s.rebase_state is None && s.conflicts.len() == 0
}

/// A repository after tables were read into its working set.
pub open spec fn captured(s: StoreModel, tables: Seq<(Seq<char>, SnapModel)>) -> StoreModel
    decreases tables.len(),
{
    if tables.len() == 0 {
        s
    } else {
        crate::staging::worked(
            captured(s, tables.drop_last()),
            tables.last().0,
            tables.last().1,
        )
    }
}

/// Rows chosen in conflicts, put back by table and key.
pub open spec fn images_back(
    pending: Map<(Seq<char>, RowModel), Option<RowModel>>,
    list: Seq<(Seq<char>, RowModel, Option<RowModel>)>,
) -> Map<(Seq<char>, RowModel), Option<RowModel>>
    decreases list.len(),
{
    if list.len() == 0 {
        pending
    } else {
        images_back(pending, list.drop_last()).insert(
            (list.last().0, list.last().1),
            list.last().2,
        )
    }
}

/// The names of tables.
pub open spec fn names_of(changes: Seq<(Seq<char>, SnapModel)>) -> Seq<Seq<char>> {
    changes.map_values(|c: (Seq<char>, SnapModel)| c.0)
}

impl VcStore {
    /// Does a rebase wait?
    pub fn is_rebase_open(&self) -> (r: bool)
        ensures
            r == (self.deep_view().rebase_state is Some),
    {
        self.rebase_state.is_some()
    }

    pub fn has_conflicts(&self) -> (r: bool)
        ensures
            r == (self.deep_view().conflicts.len() > 0),
    {
        assert(self.conflicts.deep_view().len() == self.conflicts@.len());
        self.conflicts.len() > 0
    }

    /// Put chosen rows back that were not written.
    pub fn restore_pending_resolve(&mut self, list: &Vec<(String, Vec<VcValue>, Option<VcRow>)>)
        ensures
            final(self).deep_view() == (StoreModel {
                pending_resolve: images_back(
                    old(self).deep_view().pending_resolve,
                    list.deep_view(),
                ),
                ..old(self).deep_view()
            }),
    {
        let ghost l = list.deep_view();
        let mut i: usize = 0;
        assert(l.take(0) =~= seq![]);
        while i < list.len()
            invariant
                i <= list@.len(),
                l == list.deep_view(),
                self.deep_view() == (StoreModel {
                    pending_resolve: images_back(
                        old(self).deep_view().pending_resolve,
                        l.take(i as int),
                    ),
                    ..old(self).deep_view()
                }),
            decreases list.len() - i,
        {
            proof {
                assert(l[i as int] == list@[i as int].deep_view());
                assert(l.take(i + 1).drop_last() =~= l.take(i as int));
            }
            let key = (list[i].0.clone(), list[i].1.dup());
            self.pending_resolve.insert(key, list[i].2.dup());
            i = i + 1;
        }
        assert(l.take(i as int) =~= l);
    }

    /// Tables have to be written back again.
    pub fn restore_dirty_work(&mut self, names: &Vec<String>)
        ensures
            final(self).deep_view() == (StoreModel {
                dirty_work: old(self).deep_view().dirty_work.union(names.deep_view().to_set()),
                ..old(self).deep_view()
            }),
    {
        self.dirty_work.insert_all(names);
    }
}

/// What has to be written to the SQL tables.
pub struct WriteBack {
    pub resolutions: Vec<(String, Vec<VcValue>, Option<VcRow>)>,
    pub changes: Vec<(String, TableSnapshot)>,
}

impl VcState {
    /// A connection on branch `main` of an empty repository.
    pub fn new() -> (r: Self)
        ensures
            r.deep_view() == (StateModel {
                store: crate::staging::new_store("main"@),
                session: crate::session::on_branch("main"@),
            }),
    {
        VcState { store: VcStore::new("main"), session: SessionBranch::new("main") }
    }

    /// The tables whose SQL contents are to be read now.
    pub fn tables_to_capture(&self) -> (r: Vec<String>)
        ensures
            r.deep_view() == (if may_capture(self.deep_view().store) {
                self.deep_view().store.tables
            } else {
                seq![]
            }),
    {
        if self.store.is_rebase_open() || self.store.has_conflicts() {
            let none: Vec<String> = Vec::new();
            assert(none.deep_view() =~= seq![]);
            return none;
        }
        self.store.tables()
    }

    /// Take the SQL contents of tables into the working set.
    pub fn sync_sql_to_work(&mut self, tables: &Vec<(String, TableSnapshot)>)
        ensures
            final(self).deep_view() == (StateModel {
                store: captured(old(self).deep_view().store, tables.deep_view()),
                ..old(self).deep_view()
            }),
    {
        let ghost t = tables.deep_view();
        let mut i: usize = 0;
        assert(t.take(0) =~= seq![]);
        while i < tables.len()
            invariant
                i <= tables@.len(),
                t == tables.deep_view(),
                self.deep_view() == (StateModel {
                    store: captured(old(self).deep_view().store, t.take(i as int)),
                    ..old(self).deep_view()
                }),
            decreases tables.len() - i,
        {
            proof {
                assert(t[i as int] == tables@[i as int].deep_view());
                assert(t.take(i + 1).drop_last() =~= t.take(i as int));
            }
            let snap = tables[i].1.dup();
            self.store.apply_work(
                tables[i].0.as_str(),
                snap.columns,
                snap.pk,
                snap.rows,
                snap.schema_sql,
            );
            i = i + 1;
        }
        assert(t.take(i as int) =~= t);
    }

    /// The working set becomes the committed contents of the branch.
    pub fn sync_work_to_head(&mut self)
        ensures
            final(self).deep_view() == (StateModel {
                store: crate::staging::synced(old(self).deep_view().store),
                ..old(self).deep_view()
            }),
    {
        self.store.sync_work_to_head();
    }

    /// What has to be written to the SQL tables: rows chosen in conflicts, and the
    /// tables that differ. Neither is handed out again, unless it is given back.
    pub fn begin_write_back(&mut self) -> (r: WriteBack)
        ensures
            crate::conflicts::lists_images(
                old(self).deep_view().store.pending_resolve,
                r.resolutions.deep_view(),
            ),
            r.changes.deep_view() == crate::staging::changes_in(
                old(self).deep_view().store.work,
                crate::names::ordered(old(self).deep_view().store.dirty_work),
            ),
            final(self).deep_view() == (StateModel {
                store: StoreModel {
                    pending_resolve: Map::empty(),
                    dirty_work: Set::empty(),
                    ..old(self).deep_view().store
                },
                ..old(self).deep_view()
            }),
    {
        let resolutions = self.store.take_pending_resolve();
        let changes = self.store.take_work_changes();
        WriteBack { resolutions, changes }
    }

    /// Give back what could not be written, so that it is tried again.
    pub fn abandon_write_back(&mut self, w: &WriteBack)
        ensures
            final(self).deep_view() == (StateModel {
                store: given_back(
                    old(self).deep_view().store,
                    w.resolutions.deep_view(),
                    w.changes.deep_view(),
                ),
                ..old(self).deep_view()
            }),
    {
        let ghost c = w.changes.deep_view();
        let mut names: Vec<String> = Vec::new();
        let mut i: usize = 0;
        while i < w.changes.len()
            invariant
                i <= w.changes@.len(),
                c == w.changes.deep_view(),
                names@.len() == i,
                forall|j: int| 0 <= j < i ==> (#[trigger] names@[j])@ == c[j].0,
            decreases w.changes.len() - i,
        {
            assert(c[i as int] == w.changes@[i as int].deep_view());
            names.push(w.changes[i].0.clone());
            i = i + 1;
        }
        assert(names.deep_view() =~= names_of(c));
        self.store.restore_pending_resolve(&w.resolutions);
        self.store.restore_dirty_work(&names);
    }

    /// A table comes under version control.
    pub fn track_table(&mut self, name: &str)
        ensures
            final(self).deep_view() == (StateModel {
                store: crate::staging::with_table(old(self).deep_view().store, name@),
                ..old(self).deep_view()
            }),
    {
        self.store.track_table(name);
    }

    /// Go to a branch and give up any pin.
    pub fn open_branch(&mut self, name: &str) -> (r: VersionResult<()>)
        ensures
            ({
                let (s, out) = crate::staging::checked_out(old(self).deep_view().store, name@);
                &&& crate::model::outcome(r) == out
                &&& final(self).deep_view() == (StateModel {
                    store: s,
                    session: if out is Ok {
                        crate::session::on_branch(name@)
                    } else {
                        old(self).deep_view().session
                    },
                })
            }),
    {
        match self.store.checkout(name) {
            Ok(()) => {
                let _ = self.session.open_branch(name);
                Ok(())
            },
            Err(e) => Err(e),
        }
    }

    /// Pin the connection to a commit, which refuses writing.
    pub fn open_detached(&mut self, snapshot: CommitId)
        ensures
            final(self).deep_view() == (StateModel {
                store: StoreModel {
                    detached: Some(snapshot@),
                    ..old(self).deep_view().store
                },
                session: SessionModel { current: None, detached: Some(snapshot@) },
            }),
    {
        self.store.open_detached(snapshot);
        self.session.open_detached(snapshot);
    }

    /// The branch; none while pinned.
    pub fn active_branch(&self) -> (r: Option<String>)
        ensures
            r.deep_view() == match self.deep_view().session.current {
                Some(b) => Some(b.1),
                None => None,
            },
    {
        match self.session.active_branch() {
            Some(b) => Some(b.name.clone()),
            None => None,
        }
    }

    /// Writing is refused while pinned.
    pub fn guard_write(&self) -> (r: VersionResult<()>)
        ensures
            crate::model::outcome(r) == match crate::staging::write_guard(self.deep_view().store) {
                Some(e) => Err(e),
                None => if self.deep_view().session.detached is Some {
                    Err(Fault::DetachedHeadWrite)
                } else {
                    Ok(())
                },
            },
    {
        match self.store.guard_write() {
            Ok(()) => self.session.guard_write(),
            Err(e) => Err(e),
        }
    }
}

/// A repository that was given back what could not be written.
pub open spec fn given_back(
    s: StoreModel,
    resolutions: Seq<(Seq<char>, RowModel, Option<RowModel>)>,
    changes: Seq<(Seq<char>, SnapModel)>,
) -> StoreModel {
    StoreModel {
        pending_resolve: images_back(s.pending_resolve, resolutions),
        dirty_work: s.dirty_work.union(names_of(changes).to_set()),
        ..s
    }
}

// ---------------------------------------------------------------------------
// The columns of an SQL table
// ---------------------------------------------------------------------------

/// A column as SQL describes it: its name, and its place in the key from 1 on or 0.
#[derive(Debug, Clone, PartialEq, Eq)]
pub struct ColumnInfo {
    pub name: Option<String>,
    pub rank: u64,
}

/// What a column stands for.
pub type ColumnModel = (Option<Seq<char>>, u64);

impl DeepView for ColumnInfo {
    type V = ColumnModel;

    open spec fn deep_view(&self) -> ColumnModel {
        (self.name.deep_view(), self.rank)
    }
}

/// The names of the columns that have one.
pub open spec fn column_names(info: Seq<ColumnModel>) -> Seq<Seq<char>>
    decreases info.len(),
{
    if info.len() == 0 {
        seq![]
    } else {
        match info.last().0 {
            Some(name) => column_names(info.drop_last()).push(name),
            None => column_names(info.drop_last()),
        }
    }
}

/// The names of the columns of a table, in order.
pub fn table_columns(info: &Vec<ColumnInfo>) -> (r: Vec<String>)
    ensures
        r.deep_view() == column_names(info.deep_view()),
{
    let ghost all = info.deep_view();
    let mut out: Vec<String> = Vec::new();
    let mut i: usize = 0;
    assert(all.take(0) =~= seq![]);
    assert(out.deep_view() =~= seq![]);
    while i < info.len()
        invariant
            i <= info@.len(),
            all == info.deep_view(),
            out.deep_view() == column_names(all.take(i as int)),
        decreases info.len() - i,
    {
        let ghost before = out.deep_view();
        proof {
            assert(all[i as int] == info@[i as int].deep_view());
            assert(all.take(i + 1).drop_last() =~= all.take(i as int));
        }
        if let Some(name) = &info[i].name {
            out.push(name.clone());
            assert(out.deep_view() =~= before.push(name@));
        }
        i = i + 1;
    }
    assert(all.take(i as int) =~= all);
    out
}

/// The key columns, each with its rank, as they come.
pub open spec fn key_parts(info: Seq<ColumnModel>) -> Seq<(u64, Seq<char>)>
    decreases info.len(),
{
    if info.len() == 0 {
        seq![]
    } else {
        match info.last().0 {
            Some(name) => if info.last().1 > 0 {
                key_parts(info.drop_last()).push((info.last().1, name))
            } else {
                key_parts(info.drop_last())
            },
            None => key_parts(info.drop_last()),
        }
    }
}

/// Where a rank goes in a list: behind all that are not higher.
pub open spec fn rank_place(list: Seq<(u64, Seq<char>)>, rank: u64) -> int
    decreases list.len(),
{
    if list.len() == 0 || list.last().0 <= rank {
        list.len() as int
    } else {
        rank_place(list.drop_last(), rank)
    }
}

/// Key columns by rank; equal ranks as they come.
pub open spec fn by_rank(parts: Seq<(u64, Seq<char>)>) -> Seq<(u64, Seq<char>)>
    decreases parts.len(),
{
    if parts.len() == 0 {
        seq![]
    } else {
        let before = by_rank(parts.drop_last());
        before.insert(rank_place(before, parts.last().0), parts.last())
    }
}

/// The names of the key columns by rank.
pub open spec fn key_names(info: Seq<ColumnModel>) -> Seq<Seq<char>> {
    by_rank(key_parts(info)).map_values(|p: (u64, Seq<char>)| p.1)
}

spec fn parts_model(v: Seq<(u64, String)>) -> Seq<(u64, Seq<char>)> {
    v.map_values(|p: (u64, String)| (p.0, p.1@))
}

fn place_of(list: &Vec<(u64, String)>, rank: u64) -> (r: usize)
    ensures
        r == rank_place(parts_model(list@), rank),
        r <= list@.len(),
{
    let ghost l = parts_model(list@);
    let mut n: usize = list.len();
    assert(l.take(l.len() as int) =~= l);
    while n > 0
        invariant
            n <= list@.len(),
            l == parts_model(list@),
            rank_place(l.take(n as int), rank) == rank_place(l, rank),
        decreases n,
    {
        proof {
            assert(l.take(n as int).last() == l[n - 1]);
            assert(l.take(n as int).drop_last() =~= l.take(n - 1));
        }
        if list[n - 1].0 <= rank {
            return n;
        }
        n = n - 1;
    }
    0
}

/// The names of the key columns of a table, by their place in the key.
pub fn table_pk(info: &Vec<ColumnInfo>) -> (r: Vec<String>)
    ensures
        r.deep_view() == key_names(info.deep_view()),
{
    let ghost all = info.deep_view();
    let mut ranked: Vec<(u64, String)> = Vec::new();
    let mut i: usize = 0;
    assert(all.take(0) =~= seq![]);
    assert(parts_model(ranked@) =~= seq![]);
    while i < info.len()
        invariant
            i <= info@.len(),
            all == info.deep_view(),
            parts_model(ranked@) == by_rank(key_parts(all.take(i as int))),
        decreases info.len() - i,
    {
        let ghost before = parts_model(ranked@);
        let ghost parts = key_parts(all.take(i as int));
        proof {
            assert(all[i as int] == info@[i as int].deep_view());
            assert(all.take(i + 1).drop_last() =~= all.take(i as int));
        }
        if let Some(name) = &info[i].name {
            if info[i].rank > 0 {
                let at = place_of(&ranked, info[i].rank);
                let ghost old_ranked = ranked@;
                ranked.insert(at, (info[i].rank, name.clone()));
                proof {
                    let x = (info@[i as int].rank, name@);
                    assert(parts.push(x).drop_last() =~= parts);
                    assert(parts_model(ranked@) =~= before.insert(at as int, x));
                }
            }
        }
        i = i + 1;
    }
    assert(all.take(i as int) =~= all);
    let ghost done = parts_model(ranked@);
    let mut out: Vec<String> = Vec::new();
    let mut k: usize = 0;
    while k < ranked.len()
        invariant
            k <= ranked@.len(),
            done == parts_model(ranked@),
            out@.len() == k,
            forall|j: int| 0 <= j < k ==> (#[trigger] out@[j])@ == done[j].1,
        decreases ranked.len() - k,
    {
        out.push(ranked[k].1.clone());
        k = k + 1;
    }
    assert(out.deep_view() =~= done.map_values(|p: (u64, Seq<char>)| p.1));
    out
}

/// What was read of an SQL table. A table without columns is missing.
pub fn read_table(
    table: &str,
    info: &Vec<ColumnInfo>,
    rows: Vec<VcRow>,
    schema_sql: String,
) -> (r: VersionResult<TableSnapshot>)
    ensures
        crate::model::outcome(r) == (if column_names(info.deep_view()).len() == 0 {
            Err(Fault::TableNotFound(table@))
        } else {
            Ok(
                SnapModel {
                    columns: column_names(info.deep_view()),
                    pk: key_names(info.deep_view()),
                    rows: rows.deep_view(),
                    schema_sql: schema_sql@,
                },
            )
        }),
{
    let columns = table_columns(info);
    assert(columns.deep_view().len() == columns@.len());
    if columns.len() == 0 {
        return Err(VersionError::TableNotFound(table.to_owned()));
    }
    Ok(TableSnapshot { columns, pk: table_pk(info), rows, schema_sql })
}

// ---------------------------------------------------------------------------
// Statements
// ---------------------------------------------------------------------------

/// A statement with the values for its question marks.
#[derive(Debug, Clone, PartialEq, Eq)]
pub struct SqlStep {
    pub sql: String,
    pub args: Vec<VcValue>,
}

/// What a statement stands for.
pub type StepModel = (Seq<char>, RowModel);

impl DeepView for SqlStep {
    type V = StepModel;

    open spec fn deep_view(&self) -> StepModel {
        (self.sql@, self.args.deep_view())
    }
}

/// Names as quoted identifiers, each with a text behind.
pub open spec fn quoted_all(names: Seq<Seq<char>>, tail: Seq<char>) -> Seq<Seq<char>> {
    names.map_values(|n: Seq<char>| crate::vtab::quoted(n) + tail)
}

fn quote_all(names: &Vec<String>, tail: &str) -> (r: Vec<String>)
    ensures
        r.deep_view() == quoted_all(names.deep_view(), tail@),
{
    let ghost n = names.deep_view();
    let mut out: Vec<String> = Vec::new();
    let mut i: usize = 0;
    while i < names.len()
        invariant
            i <= names@.len(),
            n == names.deep_view(),
            out@.len() == i,
            forall|j: int|
                0 <= j < i ==> (#[trigger] out@[j])@ == crate::vtab::quoted(n[j]) + tail@,
        decreases names.len() - i,
    {
        assert(n[i as int] == names@[i as int]@);
        out.push(cat2(quote_ident(names[i].as_str()).as_str(), tail));
        i = i + 1;
    }
    assert(out.deep_view() =~= quoted_all(n, tail@));
    out
}

/// A question mark for each of a number of values.
pub open spec fn question_marks(n: nat) -> Seq<char> {
    crate::text::joined(Seq::new(n, |i: int| "?"@), ", "@)
}

fn placeholders(n: usize) -> (r: String)
    ensures
        r@ == question_marks(n as nat),
{
    let mut marks: Vec<String> = Vec::new();
    while marks.len() < n
        invariant
            marks@.len() <= n,
            forall|j: int| 0 <= j < marks@.len() ==> (#[trigger] marks@[j])@ == "?"@,
        decreases n - marks.len(),
    {
        marks.push("?".to_owned());
    }
    assert(marks.deep_view() =~= Seq::new(n as nat, |i: int| "?"@));
    join(&marks, ", ")
}

/// The statement that puts a row into a table.
pub open spec fn insert_text(table: Seq<char>, columns: Seq<Seq<char>>) -> Seq<char> {
    "INSERT INTO "@ + crate::vtab::quoted(table) + " ("@ + crate::text::joined(
        quoted_all(columns, ""@),
        ", "@,
    ) + ") VALUES ("@ + question_marks(columns.len()) + ")"@
}

fn insert_statement(table: &str, columns: &Vec<String>) -> (r: String)
    ensures
        r@ == insert_text(table@, columns.deep_view()),
{
    assert(columns.deep_view().len() == columns@.len());
    let list = join(&quote_all(columns, ""), ", ");
    let mut r = cat5(
        "INSERT INTO ",
        quote_ident(table).as_str(),
        " (",
        list.as_str(),
        ") VALUES (",
    );
    r.append(placeholders(columns.len()).as_str());
    r.append(")");
    r
}

/// The statement that makes a table: its own, or one with text columns.
pub open spec fn create_text(table: Seq<char>, snap: SnapModel) -> Seq<char> {
    if snap.schema_sql.len() > 0 {
        snap.schema_sql
    } else {
        "CREATE TABLE "@ + crate::vtab::quoted(table) + " ("@ + crate::text::joined(
            quoted_all(snap.columns, " TEXT"@),
            ", "@,
        ) + ")"@
    }
}

fn create_statement(table: &str, snap: &TableSnapshot) -> (r: String)
    ensures
        r@ == create_text(table@, snap.deep_view()),
{
    proof {
        reveal_strlit("");
        if snap.schema_sql@.len() == 0 {
            assert(snap.schema_sql@ =~= ""@);
        }
    }
    if !str_eq(snap.schema_sql.as_str(), "") {
        return snap.schema_sql.clone();
    }
    let list = join(&quote_all(&snap.columns, " TEXT"), ", ");
    cat5("CREATE TABLE ", quote_ident(table).as_str(), " (", list.as_str(), ")")
}

/// The statements that make the contents of an SQL table those of a snapshot: the
/// table is emptied or made, then its rows are put in one by one.
pub open spec fn write_steps(table: Seq<char>, snap: SnapModel, exists_now: bool) -> Seq<StepModel> {
    seq![
        (
            if exists_now {
                "DELETE FROM "@ + crate::vtab::quoted(table)
            } else {
                create_text(table, snap)
            },
            seq![],
        ),
    ] + snap.rows.map_values(|row: RowModel| (insert_text(table, snap.columns), row))
}

/// The statements that write a snapshot to an SQL table.
pub fn write_table_snapshot(table: &str, snap: &TableSnapshot, exists_now: bool) -> (r: Vec<SqlStep>)
    ensures
        r.deep_view() == write_steps(table@, snap.deep_view(), exists_now),
{
    let ghost m = snap.deep_view();
    let ghost all = write_steps(table@, m, exists_now);
    let mut out: Vec<SqlStep> = Vec::new();
    let first = if exists_now {
        cat2("DELETE FROM ", quote_ident(table).as_str())
    } else {
        create_statement(table, snap)
    };
    let none: Vec<VcValue> = Vec::new();
    assert(none.deep_view() =~= seq![]);
    out.push(SqlStep { sql: first, args: none });
    let insert = insert_statement(table, &snap.columns);
    let mut i: usize = 0;
    assert(out@[0].deep_view() == all[0]);
    while i < snap.rows.len()
        invariant
            i <= snap.rows@.len(),
            m == snap.deep_view(),
            all == write_steps(table@, m, exists_now),
            insert@ == insert_text(table@, m.columns),
            out@.len() == i + 1,
            forall|j: int| 0 <= j <= i ==> (#[trigger] out@[j]).deep_view() == all[j],
        decreases snap.rows.len() - i,
    {
        assert(m.rows[i as int] == snap.rows@[i as int].deep_view());
        assert(all[i + 1] == (insert_text(table@, m.columns), m.rows[i as int]));
        out.push(SqlStep { sql: insert.clone(), args: snap.rows[i].values.dup() });
        i = i + 1;
    }
    assert(out.deep_view() =~= all);
    out
}

/// The statement that takes the row of a key out of a table.
pub open spec fn delete_text(table: Seq<char>, key: Seq<Seq<char>>) -> Seq<char> {
    "DELETE FROM "@ + crate::vtab::quoted(table) + " WHERE "@ + crate::text::joined(
        quoted_all(key, " = ?"@),
        " AND "@,
    )
}

/// The statements that put a chosen row in place of the one with its key, or the
/// message where the key does not fit the table.
pub open spec fn resolution_steps(
    table: Seq<char>,
    info: Seq<ColumnModel>,
    pk: RowModel,
    image: Option<RowModel>,
) -> Result<Seq<StepModel>, Fault> {
    let key = key_names(info);
    if key.len() != pk.len() {
        Err(
            Fault::WorkWrite(
                "resolve image for "@ + table + " has "@ + crate::text::decimal(key.len())
                    + " pk columns, want "@ + crate::text::decimal(pk.len()),
            ),
        )
    } else {
        let gone = (delete_text(table, key), pk);
        Ok(
            match image {
                Some(row) => seq![gone, (insert_text(table, column_names(info)), row)],
                None => seq![gone],
            },
        )
    }
}

/// The statements that put a chosen row in place.
pub fn apply_resolution_image(
    table: &str,
    info: &Vec<ColumnInfo>,
    pk: &Vec<VcValue>,
    image: &Option<VcRow>,
) -> (r: VersionResult<Vec<SqlStep>>)
    ensures
        crate::model::outcome(r) == resolution_steps(
            table@,
            info.deep_view(),
            pk.deep_view(),
            image.deep_view(),
        ),
{
    let key = table_pk(info);
    assert(key.deep_view().len() == key@.len());
    assert(pk.deep_view().len() == pk@.len());
    if key.len() != pk.len() {
        let mut text = cat5(
            "resolve image for ",
            table,
            " has ",
            decimal_text(key.len() as u64).as_str(),
            " pk columns, want ",
        );
        text.append(decimal_text(pk.len() as u64).as_str());
        return Err(VersionError::WorkWrite(text));
    }
    let matching = join(&quote_all(&key, " = ?"), " AND ");
    let delete = cat2(
        cat3("DELETE FROM ", quote_ident(table).as_str(), " WHERE ").as_str(),
        matching.as_str(),
    );
    let mut out: Vec<SqlStep> = Vec::new();
    out.push(SqlStep { sql: delete, args: pk.dup() });
    if let Some(row) = image {
        out.push(
            SqlStep {
                sql: insert_statement(table, &table_columns(info)),
                args: row.values.dup(),
            },
        );
    }
    proof {
        let want = resolution_steps(
            table@,
            info.deep_view(),
            pk.deep_view(),
            image.deep_view(),
        );
        assert(out.deep_view() =~= want->Ok_0);
    }
    Ok(out)
}

// ---------------------------------------------------------------------------
// Laws
// ---------------------------------------------------------------------------

proof fn lemma_images_back(
    pending: Map<(Seq<char>, RowModel), Option<RowModel>>,
    list: Seq<(Seq<char>, RowModel, Option<RowModel>)>,
    n: int,
    x: (Seq<char>, RowModel),
)
    requires
        crate::conflicts::lists_images(pending, list),
        0 <= n <= list.len(),
    ensures
        images_back(Map::empty(), list.take(n)).dom().contains(x) <==> exists|j: int|
            0 <= j < n && ((#[trigger] list[j]).0, list[j].1) == x,
        images_back(Map::empty(), list.take(n)).dom().contains(x) ==> pending.dom().contains(x)
            && images_back(Map::empty(), list.take(n))[x] == pending[x],
    decreases n,
{
    if n == 0 {
        assert(list.take(0) =~= seq![]);
    } else {
        lemma_images_back(pending, list, n - 1, x);
        assert(list.take(n).drop_last() =~= list.take(n - 1));
        assert(list.take(n).last() == list[n - 1]);
    }
}

proof fn lemma_changes_in(
    work: crate::table_merge::TablesModel,
    names: Seq<Seq<char>>,
    x: Seq<char>,
)
    ensures
        names_of(crate::staging::changes_in(work, names)).contains(x) <==> names.contains(x)
            && work.dom().contains(x),
    decreases names.len(),
{
    let c = crate::staging::changes_in(work, names);
    if names.len() == 0 {
    } else {
        let before = crate::staging::changes_in(work, names.drop_last());
        lemma_changes_in(work, names.drop_last(), x);
        assert(names =~= names.drop_last().push(names.last()));
        if names.drop_last().contains(x) {
            let k = choose|k: int| 0 <= k < names.len() - 1 && names.drop_last()[k] == x;
            assert(names[k] == x);
        }
        if work.dom().contains(names.last()) {
            assert(names_of(c) =~= names_of(before).push(names.last()));
            if names_of(before).contains(x) {
                let k = choose|k: int|
                    0 <= k < names_of(before).len() && names_of(before)[k] == x;
                assert(names_of(c)[k] == x);
            }
            if x == names.last() {
                assert(names_of(c)[names_of(before).len() as int] == x);
                assert(names[names.len() - 1] == x);
            }
            if names_of(c).contains(x) && x != names.last() {
                let k = choose|k: int| 0 <= k < names_of(c).len() && names_of(c)[k] == x;
                assert(names_of(before)[k] == x);
            }
        }
        if names.contains(x) && x != names.last() {
            let k = choose|k: int| 0 <= k < names.len() && names[k] == x;
            assert(names.drop_last()[k] == x);
        }
    }
}

/// A write-back that failed and was given back leaves everything to be tried again:
/// the repository is what it was before.
pub proof fn law_failed_write_back_can_be_tried_again(
    s: StoreModel,
    resolutions: Seq<(Seq<char>, RowModel, Option<RowModel>)>,
)
    requires
        s.dirty_work.finite(),
        s.dirty_work.subset_of(s.work.dom()),
        crate::conflicts::lists_images(s.pending_resolve, resolutions),
    ensures
        given_back(
            (StoreModel { pending_resolve: Map::empty(), dirty_work: Set::empty(), ..s }),
            resolutions,
            crate::staging::changes_in(s.work, crate::names::ordered(s.dirty_work)),
        ) == s,
{
    let names = crate::names::ordered(s.dirty_work);
    crate::names::law_ordered(s.dirty_work);
    let changes = crate::staging::changes_in(s.work, names);
    assert(resolutions.take(resolutions.len() as int) =~= resolutions);
    assert forall|x: (Seq<char>, RowModel)| #[trigger]
        images_back(Map::empty(), resolutions).dom().contains(x)
            <==> s.pending_resolve.dom().contains(x) by {
        lemma_images_back(s.pending_resolve, resolutions, resolutions.len() as int, x);
    }
    assert forall|x: (Seq<char>, RowModel)| #[trigger]
        s.pending_resolve.dom().contains(x) implies images_back(Map::empty(), resolutions)[x]
        == s.pending_resolve[x] by {
        lemma_images_back(s.pending_resolve, resolutions, resolutions.len() as int, x);
    }
    assert(images_back(Map::empty(), resolutions) =~= s.pending_resolve);
    assert forall|x: Seq<char>| #[trigger]
        names_of(changes).to_set().contains(x) <==> s.dirty_work.contains(x) by {
        lemma_changes_in(s.work, names, x);
        assert(names.to_set().contains(x) <==> names.contains(x));
    }
    assert(Set::<Seq<char>>::empty().union(names_of(changes).to_set()) =~= s.dirty_work);
}

/// The key columns come in the order of their ranks.
pub proof fn law_key_is_in_rank_order(parts: Seq<(u64, Seq<char>)>, a: int, b: int)
    requires
        0 <= a < b < parts.len(),
    ensures
        by_rank(parts).len() == parts.len(),
        by_rank(parts)[a].0 <= by_rank(parts)[b].0,
    decreases parts.len(),
{
    lemma_by_rank(parts);
}

spec fn ranks_sorted(list: Seq<(u64, Seq<char>)>) -> bool {
    forall|a: int, b: int| 0 <= a < b < list.len() ==> (#[trigger] list[a]).0 <= (#[trigger] list[b]).0
}

proof fn lemma_place_splits(list: Seq<(u64, Seq<char>)>, rank: u64)
    requires
        ranks_sorted(list),
    ensures
        0 <= rank_place(list, rank) <= list.len(),
        forall|k: int| 0 <= k < rank_place(list, rank) ==> (#[trigger] list[k]).0 <= rank,
        forall|k: int| rank_place(list, rank) <= k < list.len() ==> (#[trigger] list[k]).0 > rank,
    decreases list.len(),
{
    if list.len() > 0 && list.last().0 > rank {
        let l = list.drop_last();
        assert forall|a: int, b: int| 0 <= a < b < l.len() implies (#[trigger] l[a]).0
            <= (#[trigger] l[b]).0 by {
            assert(list[a].0 <= list[b].0);
        }
        lemma_place_splits(l, rank);
        let p = rank_place(l, rank);
        assert forall|k: int| 0 <= k < p implies (#[trigger] list[k]).0 <= rank by {
            assert(l[k] == list[k]);
        }
        assert forall|k: int| p <= k < list.len() implies (#[trigger] list[k]).0 > rank by {
            if k < l.len() {
                assert(l[k] == list[k]);
            }
        }
    }
}

proof fn lemma_by_rank(parts: Seq<(u64, Seq<char>)>)
    ensures
        by_rank(parts).len() == parts.len(),
        ranks_sorted(by_rank(parts)),
    decreases parts.len(),
{
    if parts.len() > 0 {
        let before = by_rank(parts.drop_last());
        lemma_by_rank(parts.drop_last());
        lemma_place_splits(before, parts.last().0);
    }
}

/// A table that was read last under its name has these contents in the working set; a table
/// that was not read keeps its own.
pub proof fn law_captured_tables_are_worked_on(
    s: StoreModel,
    tables: Seq<(Seq<char>, SnapModel)>,
    i: int,
    other: Seq<char>,
)
    requires
        0 <= i < tables.len(),
        forall|j: int| i < j < tables.len() ==> (#[trigger] tables[j]).0 != tables[i].0,
        forall|j: int| 0 <= j < tables.len() ==> (#[trigger] tables[j]).0 != other,
    ensures
        ({
            let t = captured(s, tables);
            &&& t.work.dom().contains(tables[i].0) && t.work[tables[i].0] == tables[i].1
            &&& crate::merge::lookup(t.work, other) == crate::merge::lookup(s.work, other)
            &&& crate::store_laws::same_history(s, t)
            &&& crate::store_laws::same_open_work(s, t)
            &&& t.staged == s.staged && t.tables == s.tables
        }),
    decreases tables.len(),
{
    let d = tables.drop_last();
    lemma_captured_other(s, d, other);
    if i < d.len() {
        assert forall|j: int| i < j < d.len() implies (#[trigger] d[j]).0 != d[i].0 by {
            assert(d[j] == tables[j]);
        }
        assert forall|j: int| 0 <= j < d.len() implies (#[trigger] d[j]).0 != other by {
            assert(d[j] == tables[j]);
        }
        law_captured_tables_are_worked_on(s, d, i, other);
        assert(tables[tables.len() - 1].0 != tables[i].0);
    } else {
        assert(tables.last() == tables[i]);
    }
    assert(tables[tables.len() - 1].0 != other);
}

proof fn lemma_captured_other(
    s: StoreModel,
    tables: Seq<(Seq<char>, SnapModel)>,
    other: Seq<char>,
)
    ensures
        ({
            let t = captured(s, tables);
            &&& (forall|j: int| 0 <= j < tables.len() ==> (#[trigger] tables[j]).0 != other)
                ==> crate::merge::lookup(t.work, other) == crate::merge::lookup(s.work, other)
            &&& crate::store_laws::same_history(s, t)
            &&& crate::store_laws::same_open_work(s, t)
            &&& t.staged == s.staged && t.tables == s.tables
        }),
    decreases tables.len(),
{
    if tables.len() > 0 {
        let d = tables.drop_last();
        lemma_captured_other(s, d, other);
        if forall|j: int| 0 <= j < tables.len() ==> (#[trigger] tables[j]).0 != other {
            assert forall|j: int| 0 <= j < d.len() implies (#[trigger] d[j]).0 != other by {
                assert(d[j] == tables[j]);
            }
            assert(tables[tables.len() - 1].0 != other);
        }
    }
}

/// Writing a table back empties it, or makes it, and then puts in every row of the snapshot,
/// in order and once, each with one value for each column.
pub proof fn law_write_back_writes_every_row(
    table: Seq<char>,
    snap: SnapModel,
    exists_now: bool,
    i: int,
)
    requires
        0 <= i < snap.rows.len(),
    ensures
        ({
            let steps = write_steps(table, snap, exists_now);
            &&& steps.len() == snap.rows.len() + 1
            &&& exists_now ==> steps[0].0 == "DELETE FROM "@ + crate::vtab::quoted(table)
            &&& !exists_now && snap.schema_sql.len() > 0 ==> steps[0].0 == snap.schema_sql
            &&& steps[0].1.len() == 0
            &&& steps[i + 1].1 == snap.rows[i]
            &&& steps[i + 1].0 == insert_text(table, snap.columns)
        }),
{
}

/// Putting a chosen row in place takes out the row of its key first, and then puts the
/// chosen one in, where there is one; a key of another width than the table's is refused.
pub proof fn law_resolution_replaces_one_row(
    table: Seq<char>,
    info: Seq<ColumnModel>,
    pk: RowModel,
    image: Option<RowModel>,
)
    ensures
        match resolution_steps(table, info, pk, image) {
            Ok(steps) => {
                &&& key_names(info).len() == pk.len()
                &&& steps.len() == if image is Some {
                    2int
                } else {
                    1
                }
                &&& steps[0] == (delete_text(table, key_names(info)), pk)
                &&& image matches Some(row) ==> steps[1] == (
                    insert_text(table, column_names(info)),
                    row,
                )
            },
            Err(_) => key_names(info).len() != pk.len(),
        },
{
}

} // verus!
