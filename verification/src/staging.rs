//! The working set of a repository: tables, staging, branches and commits.
//!
//! A `VcStore` is the state of one repository in memory. Tables are tracked,
//! staged and committed by name; their contents are snapshots. Every method that
//! changes the store says what the store is afterwards, over its model.

use vstd::prelude::*;

use crate::assoc::AssocMap;
use crate::commit::{
    resolve_revision, Commit, CommitMeta, CommitModel, CommitStore, Graph, MemCommitStore,
};
use crate::conflicts::{ConflictEntry, EntryModel};
use crate::constraints::{Violation, ViolationModel};
use crate::model::{CommitId, RootHash, VersionError, VersionResult};
use crate::names::{sorted_keys, NameSet};
use crate::refs::{parse_revision, MemRefStore, RefName, RefNs, RefStore};
use crate::remote_wire::{
    encode_snapshot_record, put_snapshot, SnapshotId, Snapshots, SnapshotsModel, SourceId,
    SourceModel,
};
use crate::replay_state::{MergeState, MergeStateModel, RebaseState, RebaseStateModel};
use crate::table_merge::{Fault, Tables, TablesModel};
use crate::text::{chars_of, cut_once, eq_ignore_case, has_text, matches_at, string_of, Dup, Same};
use crate::values::{RowModel, VcRow, VcValue};

verus! {

broadcast use crate::text::lemma_bytes_deep_view;

/// The contents of a table at a commit.
#[derive(Debug, Clone, PartialEq, Eq)]
pub struct TableSnapshot {
    pub columns: Vec<String>,
    pub pk: Vec<String>,
    pub rows: Vec<VcRow>,
    pub schema_sql: String,
}

/// What a snapshot stands for.
pub struct SnapModel {
    pub columns: Seq<Seq<char>>,
    pub pk: Seq<Seq<char>>,
    pub rows: Seq<RowModel>,
    pub schema_sql: Seq<char>,
}

impl DeepView for TableSnapshot {
    type V = SnapModel;

    open spec fn deep_view(&self) -> SnapModel {
        SnapModel {
            columns: self.columns.deep_view(),
            pk: self.pk.deep_view(),
            rows: self.rows.deep_view(),
            schema_sql: self.schema_sql@,
        }
    }
}

impl Dup for TableSnapshot {
    fn dup(&self) -> (r: Self) {
        TableSnapshot {
            columns: self.columns.dup(),
            pk: self.pk.dup(),
            rows: self.rows.dup(),
            schema_sql: self.schema_sql.clone(),
        }
    }
}

impl Same for TableSnapshot {
    fn same(&self, other: &Self) -> (r: bool) {
        self.columns.same(&other.columns) && self.pk.same(&other.pk) && self.rows.same(&other.rows)
            && self.schema_sql.same(&other.schema_sql)
    }
}

/// A remote and where it is.
#[derive(Debug, Clone, PartialEq, Eq)]
pub struct RemoteConfig {
    pub name: String,
    pub url: String,
}

impl DeepView for RemoteConfig {
    type V = (Seq<char>, Seq<char>);

    open spec fn deep_view(&self) -> (Seq<char>, Seq<char>) {
        (self.name@, self.url@)
    }
}

impl Dup for RemoteConfig {
    fn dup(&self) -> (r: Self) {
        RemoteConfig { name: self.name.clone(), url: self.url.clone() }
    }
}

/// What happened to a table since the last commit.
#[derive(Debug, Clone, Copy, PartialEq, Eq, Structural)]
pub enum TableState {
    New,
    Modified,
    Deleted,
}

/// The label of a table state.
pub open spec fn state_label(s: TableState) -> Seq<char> {
    match s {
        TableState::New => "new table"@,
        TableState::Modified => "modified"@,
        TableState::Deleted => "deleted"@,
    }
}

impl TableState {
    /// The label of the state.
    pub fn label(&self) -> (r: &'static str)
        ensures
            r@ == state_label(*self),
    {
        match self {
            TableState::New => "new table",
            TableState::Modified => "modified",
            TableState::Deleted => "deleted",
        }
    }
}

/// A line of the status: a table, whether the change is staged, and what it is.
#[derive(Debug, Clone, PartialEq, Eq)]
pub struct StatusRow {
    pub table: String,
    pub staged: bool,
    pub status: TableState,
}

/// What a status line stands for.
pub struct StatusModel {
    pub table: Seq<char>,
    pub staged: bool,
    pub status: TableState,
}

impl DeepView for StatusRow {
    type V = StatusModel;

    open spec fn deep_view(&self) -> StatusModel {
        StatusModel { table: self.table@, staged: self.staged, status: self.status }
    }
}

/// The owner and table of each snapshot record.
pub type SnapIndex = AssocMap<SnapshotId, (CommitId, String)>;

/// What the index stands for.
pub type IndexModel = Map<Seq<u8>, (Seq<u8>, Seq<char>)>;

/// The references of a repository.
pub type RefsMap = Map<(RefNs, Seq<char>), Seq<u8>>;

/// A repository in memory.
#[derive(Debug, Clone)]
pub struct VcStore {
    /// The current branch.
    pub head: String,
    /// The pinned commit of a detached head.
    pub detached: Option<CommitId>,
    pub refs: MemRefStore,
    pub branches: NameSet,
    pub commits: MemCommitStore,
    pub snapshots: Snapshots,
    pub snap_index: SnapIndex,
    /// The tracked tables.
    pub tables: Vec<String>,
    /// Tables with changes that are not staged.
    pub unstaged: NameSet,
    pub staged: NameSet,
    /// The contents of the working set.
    pub work: Tables,
    /// Tables whose working contents the store changed and the host has to write
    /// back.
    pub dirty_work: NameSet,
    pub conflicts: Vec<ConflictEntry>,
    pub violations: Vec<Violation>,
    /// Rows chosen by resolutions that the host has not applied yet.
    pub pending_resolve: AssocMap<(String, Vec<VcValue>), Option<VcRow>>,
    pub merge_state: Option<MergeState>,
    pub rebase_state: Option<RebaseState>,
    /// The remote tips last seen, by remote and branch.
    pub tracking: AssocMap<(String, String), CommitId>,
    pub remotes: Vec<RemoteConfig>,
    pub config: AssocMap<String, String>,
    pub now: i64,
    pub in_txn: bool,
    /// Where a lazy clone finds the objects it did not copy.
    pub lazy_origin: Option<String>,
    pub lazy_catalog: AssocMap<CommitId, Vec<SourceId>>,
}

/// What a repository stands for.
pub struct StoreModel {
    pub head: Seq<char>,
    pub detached: Option<Seq<u8>>,
    pub refs: RefsMap,
    pub branches: Set<Seq<char>>,
    pub commits: Graph,
    pub snapshots: SnapshotsModel,
    pub snap_index: IndexModel,
    pub tables: Seq<Seq<char>>,
    pub unstaged: Set<Seq<char>>,
    pub staged: Set<Seq<char>>,
    pub work: TablesModel,
    pub dirty_work: Set<Seq<char>>,
    pub conflicts: Seq<EntryModel>,
    pub violations: Seq<ViolationModel>,
    pub pending_resolve: Map<(Seq<char>, RowModel), Option<RowModel>>,
    pub merge_state: Option<MergeStateModel>,
    pub rebase_state: Option<RebaseStateModel>,
    pub tracking: Map<(Seq<char>, Seq<char>), Seq<u8>>,
    pub remotes: Seq<(Seq<char>, Seq<char>)>,
    pub config: Map<Seq<char>, Seq<char>>,
    pub now: i64,
    pub in_txn: bool,
    pub lazy_origin: Option<Seq<char>>,
    pub lazy_catalog: Map<Seq<u8>, Seq<SourceModel>>,
}

impl DeepView for VcStore {
    type V = StoreModel;

    open spec fn deep_view(&self) -> StoreModel {
        StoreModel {
            head: self.head@,
            detached: self.detached.deep_view(),
            refs: self.refs.deep_view(),
            branches: self.branches.deep_view(),
            commits: self.commits.deep_view(),
            snapshots: self.snapshots.deep_view(),
            snap_index: self.snap_index.deep_view(),
            tables: self.tables.deep_view(),
            unstaged: self.unstaged.deep_view(),
            staged: self.staged.deep_view(),
            work: self.work.deep_view(),
            dirty_work: self.dirty_work.deep_view(),
            conflicts: self.conflicts.deep_view(),
            violations: self.violations.deep_view(),
            pending_resolve: self.pending_resolve.deep_view(),
            merge_state: self.merge_state.deep_view(),
            rebase_state: self.rebase_state.deep_view(),
            tracking: self.tracking.deep_view(),
            remotes: self.remotes.deep_view(),
            config: self.config.deep_view(),
            now: self.now,
            in_txn: self.in_txn,
            lazy_origin: self.lazy_origin.deep_view(),
            lazy_catalog: self.lazy_catalog.deep_view(),
        }
    }
}

impl Dup for VcStore {
    fn dup(&self) -> (r: Self) {
        VcStore {
            head: self.head.dup(),
            detached: self.detached.dup(),
            refs: self.refs.dup(),
            branches: self.branches.dup(),
            commits: self.commits.dup(),
            snapshots: self.snapshots.dup(),
            snap_index: self.snap_index.dup(),
            tables: self.tables.dup(),
            unstaged: self.unstaged.dup(),
            staged: self.staged.dup(),
            work: self.work.dup(),
            dirty_work: self.dirty_work.dup(),
            conflicts: self.conflicts.dup(),
            violations: self.violations.dup(),
            pending_resolve: self.pending_resolve.dup(),
            merge_state: self.merge_state.dup(),
            rebase_state: self.rebase_state.dup(),
            tracking: self.tracking.dup(),
            remotes: self.remotes.dup(),
            config: self.config.dup(),
            now: self.now,
            in_txn: self.in_txn,
            lazy_origin: self.lazy_origin.dup(),
            lazy_catalog: self.lazy_catalog.dup(),
        }
    }
}

/// The id that stands for the working set.
pub open spec fn working_bytes() -> Seq<u8> {
    Seq::new(20, |i: int| 0xffu8)
}

/// The id that stands for the working set, which has no commit.
pub fn working_id() -> (r: CommitId)
    ensures
        r@ == working_bytes(),
{
    let r = CommitId([0xffu8; 20]);
    assert(r@ =~= working_bytes());
    r
}

// ---------------------------------------------------------------------------
// What the operations do
// ---------------------------------------------------------------------------

/// A store with one branch and nothing else.
pub open spec fn new_store(branch: Seq<char>) -> StoreModel {
    StoreModel {
        head: branch,
        detached: None,
        refs: Map::empty(),
        branches: Set::<Seq<char>>::empty().insert(branch),
        commits: Map::empty(),
        snapshots: Map::empty(),
        snap_index: Map::empty(),
        tables: seq![],
        unstaged: Set::empty(),
        staged: Set::empty(),
        work: Map::empty(),
        dirty_work: Set::empty(),
        conflicts: seq![],
        violations: seq![],
        pending_resolve: Map::empty(),
        merge_state: None,
        rebase_state: None,
        tracking: Map::empty(),
        remotes: seq![],
        config: Map::empty(),
        now: 0,
        in_txn: false,
        lazy_origin: None,
        lazy_catalog: Map::empty(),
    }
}

/// The commit that the head names.
pub open spec fn head_of(s: StoreModel) -> Option<Seq<u8>> {
    match s.detached {
        Some(id) => Some(id),
        None => crate::merge::lookup(s.refs, (RefNs::Heads, s.head)),
    }
}

/// The committed tables at the head.
pub open spec fn head_tables(s: StoreModel) -> TablesModel {
    match head_of(s) {
        Some(id) => crate::remote_wire::tables_at(s.snapshots, id),
        None => Map::empty(),
    }
}

/// Writes are refused on a detached head.
pub open spec fn write_guard(s: StoreModel) -> Option<Fault> {
    if s.detached is Some {
        Some(VersionError::DetachedHeadWrite)
    } else {
        None
    }
}

/// Is there anything that is not committed?
pub open spec fn uncommitted(s: StoreModel) -> bool {
    s.staged != Set::<Seq<char>>::empty() || s.unstaged != Set::<Seq<char>>::empty()
        || s.conflicts.len() > 0 || s.merge_state is Some
}

/// Is the store quiet: no transaction, nothing uncommitted, no rebase?
pub open spec fn quiet(s: StoreModel) -> bool {
    !s.in_txn && !uncommitted(s) && s.rebase_state is None
}

/// Track a table; its contents are a change.
pub open spec fn with_table(s: StoreModel, name: Seq<char>) -> StoreModel {
    StoreModel {
        tables: if s.tables.contains(name) {
            s.tables
        } else {
            s.tables.push(name)
        },
        unstaged: s.unstaged.insert(name),
        ..s
    }
}

/// Set the working contents of a table.
pub open spec fn worked(s: StoreModel, name: Seq<char>, snap: SnapModel) -> StoreModel {
    StoreModel {
        work: s.work.insert(name, snap),
        unstaged: if s.tables.contains(name) && !s.staged.contains(name) {
            s.unstaged.insert(name)
        } else {
            s.unstaged
        },
        ..s
    }
}

/// Stage tables.
pub open spec fn staged_with(s: StoreModel, names: Set<Seq<char>>) -> StoreModel {
    StoreModel { staged: s.staged.union(names), unstaged: s.unstaged.difference(names), ..s }
}

/// The texts of a list of string slices.
pub open spec fn strs(names: Seq<&str>) -> Seq<Seq<char>> {
    names.map_values(|n: &str| n@)
}

/// The first name from `i` on that is not tracked.
pub open spec fn untracked_from(tables: Seq<Seq<char>>, names: Seq<Seq<char>>, i: int) -> Option<
    Seq<char>,
>
    decreases names.len() - i,
{
    if i >= names.len() {
        None
    } else if !tables.contains(names[i]) {
        Some(names[i])
    } else {
        untracked_from(tables, names, i + 1)
    }
}

/// Stage named tables; all of them have to be tracked.
pub open spec fn add_tables(s: StoreModel, names: Seq<Seq<char>>) -> (StoreModel, Result<(), Fault>) {
    match write_guard(s) {
        Some(e) => (s, Err(e)),
        None => match untracked_from(s.tables, names, 0) {
            Some(n) => (s, Err(VersionError::TableNotFound(n))),
            None => (staged_with(s, names.to_set()), Ok(())),
        },
    }
}

/// Record the snapshots of tables from place `i` of a list on.
pub open spec fn record_list(
    snaps: SnapshotsModel,
    index: IndexModel,
    id: Seq<u8>,
    tables: TablesModel,
    list: Seq<Seq<char>>,
    i: int,
) -> (SnapshotsModel, IndexModel)
    decreases list.len() - i,
{
    if i >= list.len() {
        (snaps, index)
    } else {
        let t = list[i];
        record_list(
            crate::remote_wire::with_snapshot(snaps, id, t, tables[t]),
            index.insert(crate::remote_wire::record_id(id, t, tables[t]), (id, t)),
            id,
            tables,
            list,
            i + 1,
        )
    }
}

/// Record the tables of a commit.
pub open spec fn recorded(s: StoreModel, id: Seq<u8>, tables: TablesModel) -> StoreModel {
    let (snapshots, snap_index) = record_list(
        s.snapshots,
        s.snap_index,
        id,
        tables,
        crate::names::ordered(tables.dom()),
        0,
    );
    StoreModel { snapshots, snap_index, ..s }
}

/// The author of a commit: the given one, or the configured one.
pub open spec fn author_of(s: StoreModel, given: Option<(Seq<char>, Seq<char>)>) -> Option<
    (Seq<char>, Seq<char>),
> {
    match given {
        Some(a) => Some(a),
        None => if s.config.dom().contains("user.name"@) && s.config.dom().contains(
            "user.email"@,
        ) {
            Some((s.config["user.name"@], s.config["user.email"@]))
        } else {
            None
        },
    }
}

/// A commit of the store.
pub open spec fn new_commit(
    s: StoreModel,
    parents: Seq<Seq<u8>>,
    author: (Seq<char>, Seq<char>),
    message: Seq<char>,
) -> CommitModel {
    CommitModel {
        parents,
        root: Seq::new(20, |i: int| 0u8),
        name: author.0,
        email: author.1,
        message,
        timestamp: s.now as int,
    }
}

/// The tables that a commit of the staged changes holds: those of the parent,
/// without tracked tables that are gone from the working set, and the staged
/// tables with their working contents.
pub open spec fn commit_tables(s: StoreModel, parent: TablesModel) -> TablesModel {
    Map::new(
        |t: Seq<char>|
            (s.staged.contains(t) && s.work.dom().contains(t)) || (parent.dom().contains(t) && !(
            s.tables.contains(t) && !s.work.dom().contains(t))),
        |t: Seq<char>|
            if s.staged.contains(t) && s.work.dom().contains(t) {
                s.work[t]
            } else {
                parent[t]
            },
    )
}

/// The parents of the next commit: the head, and the other side of an open
/// merge.
pub open spec fn next_parents(s: StoreModel) -> Seq<Seq<u8>> {
    let first = match head_of(s) {
        Some(id) => seq![id],
        None => seq![],
    };
    match s.merge_state {
        Some(m) => first.push(m.theirs),
        None => first,
    }
}

/// The store after a commit of the staged changes.
pub open spec fn commit_staged(s: StoreModel, c: CommitModel) -> StoreModel {
    let id = crate::commit::commit_id(c);
    let content = commit_tables(s, head_tables(s));
    let put = StoreModel { commits: s.commits.insert(id, c), ..s };
    StoreModel {
        refs: s.refs.insert((RefNs::Heads, s.head), id),
        branches: s.branches.insert(s.head),
        staged: Set::empty(),
        violations: seq![],
        merge_state: None,
        ..recorded(put, id, content)
    }
}

/// Commit: conflicts, violations and an empty stage refuse it first; then comes the
/// author, then the commit itself.
pub open spec fn committed(
    s: StoreModel,
    msg: Seq<char>,
    given: Option<(Seq<char>, Seq<char>)>,
    all: bool,
    force: bool,
) -> (StoreModel, Result<Seq<u8>, Fault>) {
    match write_guard(s) {
        Some(e) => (s, Err(e)),
        None => {
            let t = if all {
                staged_with(s, s.unstaged)
            } else {
                s
            };
            if t.conflicts.len() > 0 {
                (t, Err(VersionError::Conflicts))
            } else if t.violations.len() > 0 && !force {
                (t, Err(VersionError::Violations))
            } else if t.staged == Set::<Seq<char>>::empty() && t.merge_state is None {
                (t, Err(VersionError::NothingToCommit))
            } else {
                match author_of(t, given) {
                    None => (t, Err(VersionError::InvalidAuthor)),
                    Some(author) => {
                        let c = new_commit(t, next_parents(t), author, msg);
                        (commit_staged(t, c), Ok(crate::commit::commit_id(c)))
                    },
                }
            }
        },
    }
}

/// The working set becomes the committed contents at the head.
pub open spec fn synced(s: StoreModel) -> StoreModel {
    let tables = head_tables(s);
    StoreModel {
        work: tables,
        dirty_work: s.dirty_work.union(s.work.dom()).union(tables.dom()),
        tables: with_names(s.tables, crate::names::ordered(tables.dom()), 0),
        ..s
    }
}

/// Add the names from place `i` of a list on that are not there yet.
pub open spec fn with_names(tables: Seq<Seq<char>>, list: Seq<Seq<char>>, i: int) -> Seq<Seq<char>>
    decreases list.len() - i,
{
    if i >= list.len() {
        tables
    } else if tables.contains(list[i]) {
        with_names(tables, list, i + 1)
    } else {
        with_names(tables.push(list[i]), list, i + 1)
    }
}

/// The prefix of the names of remote tips.
pub open spec fn tracking_prefix() -> Seq<char> {
    "remotes/"@
}

/// The commit that a text names: a remote tip, or a revision.
pub open spec fn named(s: StoreModel, spec_text: Seq<char>) -> Result<Seq<u8>, Fault> {
    if crate::text::stands_at(spec_text, tracking_prefix(), 0) {
        match crate::text::split_once(spec_text.skip(tracking_prefix().len() as int), seq!['/']) {
            Some(k) => if s.tracking.dom().contains(k) {
                Ok(s.tracking[k])
            } else {
                Err(VersionError::BranchNotFound(spec_text))
            },
            None => Err(VersionError::BranchNotFound(spec_text)),
        }
    } else {
        match crate::refs::revision_of(spec_text) {
            Err(e) => Err(e),
            Ok(rev) => crate::commit::resolved(
                s.commits,
                s.refs,
                rev,
                if s.tables.len() > 0 {
                    Some(working_bytes())
                } else {
                    None
                },
                head_of(s),
            ),
        }
    }
}

/// The staged line of a table.
pub open spec fn staged_line(s: StoreModel, t: Seq<char>) -> StatusModel {
    StatusModel {
        table: t,
        staged: true,
        status: if !head_tables(s).dom().contains(t) {
            TableState::New
        } else if !s.work.dom().contains(t) {
            TableState::Deleted
        } else {
            TableState::Modified
        },
    }
}

/// The lines of a table: of its staged change, then of its other changes.
pub open spec fn lines_of(s: StoreModel, t: Seq<char>) -> Seq<StatusModel> {
    crate::constraints::flag(s.staged.contains(t), staged_line(s, t)) + crate::constraints::flag(
        s.unstaged.contains(t),
        StatusModel { table: t, staged: false, status: TableState::Modified },
    )
}

/// The lines of the table at each place of a list.
pub open spec fn line_at(s: StoreModel, list: Seq<Seq<char>>) -> spec_fn(int) -> Seq<StatusModel> {
    |i: int| lines_of(s, list[i])
}

/// The status: the changed tables by name.
pub open spec fn status_of(s: StoreModel) -> Seq<StatusModel> {
    let list = crate::names::ordered(s.staged.union(s.unstaged));
    crate::constraints::gather(list.len() as int, line_at(s, list))
}

/// Create a branch at the head. Before the first commit it has no tip yet.
pub open spec fn branched(s: StoreModel, name: Seq<char>) -> (StoreModel, Result<(), Fault>) {
    if s.detached is Some {
        (s, Err(VersionError::DetachedHeadWrite))
    } else if s.branches.contains(name) || s.refs.dom().contains((RefNs::Heads, name)) {
        (s, Err(VersionError::BranchAlreadyExists(name)))
    } else {
        (
            StoreModel {
                refs: match head_of(s) {
                    Some(id) => s.refs.insert((RefNs::Heads, name), id),
                    None => s.refs,
                },
                branches: s.branches.insert(name),
                ..s
            },
            Ok(()),
        )
    }
}

/// Delete a branch.
pub open spec fn unbranched(s: StoreModel, name: Seq<char>) -> (StoreModel, Result<(), Fault>) {
    if s.detached is Some {
        (s, Err(VersionError::DetachedHeadWrite))
    } else if !s.branches.contains(name) {
        (s, Err(VersionError::BranchNotFound(name)))
    } else {
        (
            StoreModel {
                refs: s.refs.remove((RefNs::Heads, name)),
                branches: s.branches.remove(name),
                ..s
            },
            Ok(()),
        )
    }
}

/// Set a tag.
pub open spec fn tagged(s: StoreModel, name: Seq<char>, at: Seq<u8>) -> (
    StoreModel,
    Result<(), Fault>,
) {
    if s.detached is Some {
        (s, Err(VersionError::DetachedHeadWrite))
    } else {
        (StoreModel { refs: s.refs.insert((RefNs::Tags, name), at), ..s }, Ok(()))
    }
}

/// Delete a tag.
pub open spec fn untagged(s: StoreModel, name: Seq<char>) -> (StoreModel, Result<(), Fault>) {
    if s.detached is Some {
        (s, Err(VersionError::DetachedHeadWrite))
    } else if !s.refs.dom().contains((RefNs::Tags, name)) {
        (s, Err(VersionError::TagNotFound(name)))
    } else {
        (StoreModel { refs: s.refs.remove((RefNs::Tags, name)), ..s }, Ok(()))
    }
}

/// Why a merge, a replay or a switch of branches cannot start now.
pub open spec fn replay_guard(s: StoreModel) -> Option<Fault> {
    if s.merge_state is Some {
        Some(VersionError::MergeInProgress)
    } else if s.rebase_state is Some {
        Some(VersionError::RebaseInProgress)
    } else if s.conflicts.len() > 0 {
        Some(VersionError::MergeInProgress)
    } else {
        None
    }
}

/// Switch to a branch, which attaches the head again.
pub open spec fn checked_out(s: StoreModel, name: Seq<char>) -> (StoreModel, Result<(), Fault>) {
    match replay_guard(s) {
        Some(e) => (s, Err(e)),
        None => if !s.branches.contains(name) {
            (s, Err(VersionError::BranchNotFound(name)))
        } else {
            (StoreModel { head: name, detached: None, ..s }, Ok(()))
        },
    }
}

/// Unstage everything.
pub open spec fn soft_reset(s: StoreModel) -> (StoreModel, Result<(), Fault>) {
    match write_guard(s) {
        Some(e) => (s, Err(e)),
        None => (
            StoreModel { unstaged: s.unstaged.union(s.staged), staged: Set::empty(), ..s },
            Ok(()),
        ),
    }
}

/// Drop every change: the working set is that of the head.
pub open spec fn hard_reset(s: StoreModel) -> (StoreModel, Result<(), Fault>) {
    match write_guard(s) {
        Some(e) => (s, Err(e)),
        None => (
            StoreModel {
                unstaged: Set::empty(),
                staged: Set::empty(),
                conflicts: seq![],
                violations: seq![],
                merge_state: None,
                ..synced(s)
            },
            Ok(()),
        ),
    }
}

/// The tables that were never committed and are not staged.
pub open spec fn strays(s: StoreModel) -> Set<Seq<char>> {
    s.unstaged.difference(head_tables(s).dom())
}

/// Forget the tables that were never committed and are not staged.
pub open spec fn cleaned(s: StoreModel) -> StoreModel {
    StoreModel {
        unstaged: s.unstaged.difference(strays(s)),
        tables: s.tables.filter(|t: Seq<char>| !strays(s).contains(t)),
        work: s.work.remove_keys(strays(s)),
        dirty_work: s.dirty_work.union(strays(s)),
        ..s
    }
}

/// A transaction opens at `BEGIN` and ends at `COMMIT`, `END` or `ROLLBACK`.
pub open spec fn txn_after(open: bool, event: Seq<char>) -> bool {
    let e = crate::text::ascii_uppercase(event);
    if e == crate::text::ascii_uppercase("BEGIN"@) {
        true
    } else if e == crate::text::ascii_uppercase("COMMIT"@) || e == crate::text::ascii_uppercase(
        "END"@,
    ) || e == crate::text::ascii_uppercase("ROLLBACK"@) {
        false
    } else {
        open
    }
}

// ---------------------------------------------------------------------------
// The operations
// ---------------------------------------------------------------------------

/// The tables of one commit.
pub fn tables_of(snaps: &Snapshots, id: &CommitId) -> (r: Tables)
    ensures
        r.deep_view() == crate::remote_wire::tables_at(snaps.deep_view(), id@),
{
    match snaps.get(id) {
        Some(t) => t.dup(),
        None => AssocMap::new(),
    }
}

/// The texts of a list of string slices.
fn owned(names: &[&str]) -> (r: Vec<String>)
    ensures
        r.deep_view() == strs(names@),
{
    let mut out: Vec<String> = Vec::new();
    let mut i: usize = 0;
    while i < names.len()
        invariant
            i <= names@.len(),
            out@.len() == i,
            forall|j: int| 0 <= j < i ==> (#[trigger] out@[j])@ == names@[j]@,
        decreases names.len() - i,
    {
        out.push(names[i].to_owned());
        i = i + 1;
    }
    assert(out.deep_view() =~= strs(names@));
    out
}

/// The first name that is not tracked.
fn find_untracked(tables: &Vec<String>, names: &Vec<String>) -> (r: Option<String>)
    ensures
        r.deep_view() == untracked_from(tables.deep_view(), names.deep_view(), 0),
{
    let ghost t = tables.deep_view();
    let ghost n = names.deep_view();
    let mut i: usize = 0;
    while i < names.len()
        invariant
            i <= names@.len(),
            t == tables.deep_view(),
            n == names.deep_view(),
            untracked_from(t, n, i as int) == untracked_from(t, n, 0),
        decreases names.len() - i,
    {
        assert(n[i as int] == names@[i as int]@);
        if !has_text(tables, names[i].as_str()) {
            return Some(names[i].clone());
        }
        i = i + 1;
    }
    None
}

impl NameSet {
    /// Take all names of a list out.
    pub fn remove_all(&mut self, names: &Vec<String>)
        ensures
            final(self).deep_view() == old(self).deep_view().difference(
                names.deep_view().to_set(),
            ),
    {
        let ghost start = self.deep_view();
        let ghost n = names.deep_view();
        let mut i: usize = 0;
        assert(start.difference(n.take(0).to_set()) =~= start);
        while i < names.len()
            invariant
                i <= names@.len(),
                n == names.deep_view(),
                self.deep_view() == start.difference(n.take(i as int).to_set()),
            decreases names.len() - i,
        {
            self.remove(names[i].as_str());
            proof {
                crate::names::lemma_take_set(n, i as int);
                assert(n[i as int] == names@[i as int]@);
                assert(self.deep_view() =~= start.difference(n.take(i + 1).to_set()));
            }
            i = i + 1;
        }
        assert(n.take(i as int) =~= n);
    }
}

impl VcStore {
    /// A store with one branch and nothing else.
    pub fn new(branch: &str) -> (r: Self)
        ensures
            r.deep_view() == new_store(branch@),
    {
        let mut branches = NameSet::new();
        branches.insert(branch);
        let r = VcStore {
            head: branch.to_owned(),
            detached: None,
            refs: MemRefStore::new(),
            branches,
            commits: MemCommitStore::new(),
            snapshots: AssocMap::new(),
            snap_index: AssocMap::new(),
            tables: Vec::new(),
            unstaged: NameSet::new(),
            staged: NameSet::new(),
            work: AssocMap::new(),
            dirty_work: NameSet::new(),
            conflicts: Vec::new(),
            violations: Vec::new(),
            pending_resolve: AssocMap::new(),
            merge_state: None,
            rebase_state: None,
            tracking: AssocMap::new(),
            remotes: Vec::new(),
            config: AssocMap::new(),
            now: 0,
            in_txn: false,
            lazy_origin: None,
            lazy_catalog: AssocMap::new(),
        };
        proof {
            assert(r.tables.deep_view() =~= seq![]);
            assert(r.conflicts.deep_view() =~= seq![]);
            assert(r.violations.deep_view() =~= seq![]);
            assert(r.remotes.deep_view() =~= seq![]);
        }
        r
    }

    /// The current branch; none while the head is detached.
    pub fn active_branch(&self) -> (r: Option<&str>)
        ensures
            match r {
                Some(b) => self.detached is None && b@ == self.deep_view().head,
                None => self.detached is Some,
            },
    {
        match self.detached {
            Some(_) => None,
            None => Some(self.head.as_str()),
        }
    }

    /// The commit that the head names.
    pub fn head_commit(&self) -> (r: Option<CommitId>)
        ensures
            r.deep_view() == head_of(self.deep_view()),
    {
        match self.detached {
            Some(id) => Some(id),
            None => self.refs.get(&RefName::branch(self.head.as_str())),
        }
    }

    /// Pin the head to a commit.
    pub fn open_detached(&mut self, id: CommitId)
        ensures
            final(self).deep_view() == (StoreModel {
                detached: Some(id@),
                ..old(self).deep_view()
            }),
    {
        self.detached = Some(id);
    }

    /// The pinned commit of a detached head.
    pub fn detached_snapshot(&self) -> (r: Option<CommitId>)
        ensures
            r.deep_view() == self.deep_view().detached,
    {
        self.detached
    }

    /// Writes are refused on a detached head.
    pub fn guard_write(&self) -> (r: VersionResult<()>)
        ensures
            match write_guard(self.deep_view()) {
                Some(e) => r matches Err(x) && x.deep_view() == e,
                None => r is Ok,
            },
    {
        if self.detached.is_some() {
            return Err(VersionError::DetachedHeadWrite);
        }
        Ok(())
    }

    /// Refuse to start while a merge, a rebase or conflicts are open.
    pub fn guard_no_replay_in_progress(&self) -> (r: VersionResult<()>)
        ensures
            match replay_guard(self.deep_view()) {
                Some(e) => r matches Err(x) && x.deep_view() == e,
                None => r is Ok,
            },
    {
        if self.merge_state.is_some() {
            return Err(VersionError::MergeInProgress);
        }
        if self.rebase_state.is_some() {
            return Err(VersionError::RebaseInProgress);
        }
        assert(self.conflicts.deep_view().len() == self.conflicts@.len());
        if self.conflicts.len() > 0 {
            return Err(VersionError::MergeInProgress);
        }
        Ok(())
    }

    /// The value of a setting.
    pub fn config_get(&self, key: &str) -> (r: Option<String>)
        ensures
            r.deep_view() == crate::merge::lookup(self.deep_view().config, key@),
    {
        match self.config.get(&key.to_owned()) {
            Some(v) => Some(v.clone()),
            None => None,
        }
    }

    /// Set a setting.
    pub fn config_set(&mut self, key: &str, value: &str)
        ensures
            final(self).deep_view() == (StoreModel {
                config: old(self).deep_view().config.insert(key@, value@),
                ..old(self).deep_view()
            }),
    {
        self.config.insert(key.to_owned(), value.to_owned());
    }

    /// Set the clock that stamps commits.
    pub fn set_now(&mut self, now: i64)
        ensures
            final(self).deep_view() == (StoreModel { now, ..old(self).deep_view() }),
    {
        self.now = now;
    }

    /// Note a transaction statement of the host.
    pub fn note_txn_event(&mut self, event: &str)
        ensures
            final(self).deep_view() == (StoreModel {
                in_txn: txn_after(old(self).in_txn, event@),
                ..old(self).deep_view()
            }),
    {
        if eq_ignore_case(event, "BEGIN") {
            self.in_txn = true;
        } else if eq_ignore_case(event, "COMMIT") || eq_ignore_case(event, "END")
            || eq_ignore_case(event, "ROLLBACK") {
            self.in_txn = false;
        }
    }

    /// The tables under version control, in the order in which they came.
    pub fn tables(&self) -> (r: Vec<String>)
        ensures
            r.deep_view() == self.deep_view().tables,
    {
        self.tables.dup()
    }

    /// Put a table under version control.
    pub fn track_table(&mut self, name: &str)
        ensures
            final(self).deep_view() == with_table(old(self).deep_view(), name@),
    {
        let ghost before = self.tables.deep_view();
        if !has_text(&self.tables, name) {
            self.tables.push(name.to_owned());
            assert(self.tables.deep_view() =~= before.push(name@));
        }
        self.unstaged.insert(name);
    }

    /// Set the working contents of a table.
    pub fn apply_work(
        &mut self,
        name: &str,
        columns: Vec<String>,
        pk: Vec<String>,
        rows: Vec<VcRow>,
        schema_sql: String,
    )
        ensures
            final(self).deep_view() == worked(
                old(self).deep_view(),
                name@,
                SnapModel {
                    columns: columns.deep_view(),
                    pk: pk.deep_view(),
                    rows: rows.deep_view(),
                    schema_sql: schema_sql@,
                },
            ),
    {
        self.work.insert(name.to_owned(), TableSnapshot { columns, pk, rows, schema_sql });
        if has_text(&self.tables, name) && !self.staged.contains(name) {
            self.unstaged.insert(name);
        }
    }

    /// The working contents of a table.
    pub fn work_table(&self, name: &str) -> (r: Option<&TableSnapshot>)
        ensures
            match crate::merge::lookup(self.deep_view().work, name@) {
                Some(m) => r matches Some(x) && x.deep_view() == m,
                None => r is None,
            },
    {
        self.work.get(&name.to_owned())
    }

    /// The tables with working contents, by name.
    pub fn work_tables_content(&self) -> (r: Vec<String>)
        ensures
            r.deep_view() == crate::names::ordered(self.deep_view().work.dom()),
    {
        sorted_keys(&self.work)
    }

    /// The committed tables at the head.
    fn committed_tables(&self) -> (r: Tables)
        ensures
            r.deep_view() == head_tables(self.deep_view()),
    {
        match self.head_commit() {
            Some(id) => tables_of(&self.snapshots, &id),
            None => AssocMap::new(),
        }
    }

    /// The names of the committed tables at the head.
    pub fn committed_snapshot_tables(&self) -> (r: Vec<String>)
        ensures
            r.deep_view() == crate::names::ordered(head_tables(self.deep_view()).dom()),
    {
        let t = self.committed_tables();
        sorted_keys(&t)
    }

    /// The rows of a table at a commit.
    pub fn table_rows(&self, table: &str, commit: &CommitId) -> (r: Option<Vec<VcRow>>)
        ensures
            r.deep_view() == (match crate::merge::lookup(
                crate::remote_wire::tables_at(self.deep_view().snapshots, commit@),
                table@,
            ) {
                Some(s) => Some(s.rows),
                None => None,
            }),
    {
        let t = tables_of(&self.snapshots, commit);
        match t.get(&table.to_owned()) {
            Some(s) => Some(s.rows.dup()),
            None => None,
        }
    }

    /// The tables with changes that are not staged, by name.
    pub fn changed_tables(&self) -> (r: Vec<String>)
        ensures
            r.deep_view() == crate::names::ordered(self.deep_view().unstaged),
    {
        self.unstaged.sorted()
    }

    /// Stage tables.
    pub fn stage_names(&mut self, names: &Vec<String>)
        ensures
            final(self).deep_view() == staged_with(
                old(self).deep_view(),
                names.deep_view().to_set(),
            ),
    {
        self.staged.insert_all(names);
        self.unstaged.remove_all(names);
    }

    /// Mark tables whose working contents the host has to write back.
    pub fn mark_dirty(&mut self, names: &Vec<String>)
        ensures
            final(self).deep_view() == (StoreModel {
                dirty_work: old(self).deep_view().dirty_work.union(names.deep_view().to_set()),
                ..old(self).deep_view()
            }),
    {
        self.dirty_work.insert_all(names);
    }

    /// Nothing is staged and nothing is changed.
    pub fn clear_staging(&mut self)
        ensures
            final(self).deep_view() == (StoreModel {
                staged: Set::empty(),
                unstaged: Set::empty(),
                ..old(self).deep_view()
            }),
    {
        self.staged = NameSet::new();
        self.unstaged = NameSet::new();
    }

    /// Stage named tables; all of them have to be under version control.
    pub fn dolt_add(&mut self, tables: &[&str]) -> (r: VersionResult<()>)
        ensures
            ({
                let (s, out) = add_tables(old(self).deep_view(), strs(tables@));
                final(self).deep_view() == s && crate::model::outcome(r) == out
            }),
    {
        match self.guard_write() {
            Ok(_) => {},
            Err(e) => {
                return Err(e);
            },
        }
        let names = owned(tables);
        if let Some(n) = find_untracked(&self.tables, &names) {
            return Err(VersionError::TableNotFound(n));
        }
        self.stage_names(&names);
        Ok(())
    }

    /// Stage every change.
    pub fn add_all(&mut self) -> (r: VersionResult<()>)
        ensures
            match write_guard(old(self).deep_view()) {
                Some(e) => final(self).deep_view() == old(self).deep_view() && (r matches Err(x)
                    && x.deep_view() == e),
                None => r is Ok && final(self).deep_view() == staged_with(
                    old(self).deep_view(),
                    old(self).deep_view().unstaged,
                ),
            },
    {
        match self.guard_write() {
            Ok(_) => {},
            Err(e) => {
                return Err(e);
            },
        }
        let names = self.unstaged.sorted();
        self.stage_names(&names);
        Ok(())
    }

    /// Record the snapshot of a table at a commit.
    pub fn record_snapshot(
        &mut self,
        id: CommitId,
        table: &str,
        columns: Vec<String>,
        pk: Vec<String>,
        rows: Vec<VcRow>,
        schema_sql: String,
    )
        ensures
            ({
                let s = old(self).deep_view();
                let snap = SnapModel {
                    columns: columns.deep_view(),
                    pk: pk.deep_view(),
                    rows: rows.deep_view(),
                    schema_sql: schema_sql@,
                };
                final(self).deep_view() == (StoreModel {
                    snapshots: crate::remote_wire::with_snapshot(s.snapshots, id@, table@, snap),
                    snap_index: s.snap_index.insert(
                        crate::remote_wire::record_id(id@, table@, snap),
                        (id@, table@),
                    ),
                    ..s
                })
            }),
    {
        self.put_table(id, table, TableSnapshot { columns, pk, rows, schema_sql });
    }

    fn put_table(&mut self, id: CommitId, table: &str, snap: TableSnapshot)
        ensures
            ({
                let s = old(self).deep_view();
                final(self).deep_view() == (StoreModel {
                    snapshots: crate::remote_wire::with_snapshot(
                        s.snapshots,
                        id@,
                        table@,
                        snap.deep_view(),
                    ),
                    snap_index: s.snap_index.insert(
                        crate::remote_wire::record_id(id@, table@, snap.deep_view()),
                        (id@, table@),
                    ),
                    ..s
                })
            }),
    {
        let (record, _) = encode_snapshot_record(&id, table, &snap);
        self.snap_index.insert(record, (id, table.to_owned()));
        put_snapshot(&mut self.snapshots, id, table.to_owned(), snap);
    }

    /// Record the tables of a commit.
    pub fn record_tables(&mut self, id: CommitId, tables: &Tables)
        ensures
            final(self).deep_view() == recorded(old(self).deep_view(), id@, tables.deep_view()),
    {
        let ghost s = self.deep_view();
        let ghost t = tables.deep_view();
        let names = sorted_keys(tables);
        let ghost list = names.deep_view();
        let mut i: usize = 0;
        while i < names.len()
            invariant
                i <= names@.len(),
                t == tables.deep_view(),
                list == names.deep_view(),
                list == crate::names::ordered(t.dom()),
                list.to_set() == t.dom(),
                self.deep_view() == (StoreModel {
                    snapshots: self.deep_view().snapshots,
                    snap_index: self.deep_view().snap_index,
                    ..s
                }),
                record_list(
                    self.deep_view().snapshots,
                    self.deep_view().snap_index,
                    id@,
                    t,
                    list,
                    i as int,
                ) == record_list(s.snapshots, s.snap_index, id@, t, list, 0),
            decreases names.len() - i,
        {
            assert(list[i as int] == names@[i as int]@);
            assert(list.to_set().contains(list[i as int]));
            match tables.get(&names[i]) {
                Some(snap) => {
                    self.put_table(id, names[i].as_str(), snap.dup());
                },
                None => {},
            }
            i = i + 1;
        }
    }

    /// The id of the snapshot record of a table at a commit.
    pub fn snapshot_id_of(&self, commit: &CommitId, table: &str) -> (r: Option<SnapshotId>)
        ensures
            r.deep_view() == (match crate::merge::lookup(
                crate::remote_wire::tables_at(self.deep_view().snapshots, commit@),
                table@,
            ) {
                Some(s) => Some(crate::remote_wire::record_id(commit@, table@, s)),
                None => None,
            }),
    {
        let t = tables_of(&self.snapshots, commit);
        match t.get(&table.to_owned()) {
            Some(s) => {
                let (id, _) = encode_snapshot_record(commit, table, s);
                Some(id)
            },
            None => None,
        }
    }

    /// The configured author.
    pub fn author(&self) -> (r: VersionResult<(String, String)>)
        ensures
            match author_of(self.deep_view(), None) {
                Some(a) => r matches Ok(x) && x.0@ == a.0 && x.1@ == a.1,
                None => r matches Err(e) && e.deep_view()
                    == VersionError::<Seq<char>>::InvalidAuthor,
            },
    {
        let name = self.config_get("user.name");
        let email = self.config_get("user.email");
        match (name, email) {
            (Some(n), Some(e)) => Ok((n, e)),
            _ => Err(VersionError::InvalidAuthor),
        }
    }

    /// Put a commit with the store's clock among the commits.
    pub fn put_new_commit(
        &mut self,
        parents: Vec<CommitId>,
        name: String,
        email: String,
        message: String,
    ) -> (id: CommitId)
        ensures
            ({
                let s = old(self).deep_view();
                let c = new_commit(s, parents.deep_view(), (name@, email@), message@);
                id@ == crate::commit::commit_id(c) && final(self).deep_view() == (StoreModel {
                    commits: s.commits.insert(id@, c),
                    ..s
                })
            }),
    {
        let commit = Commit {
            parents,
            root: RootHash([0u8; 20]),
            meta: CommitMeta { name, email, message, timestamp: self.now },
        };
        assert(commit.root@ =~= Seq::new(20, |i: int| 0u8));
        self.commits.put_commit(commit)
    }

    /// The tables that a commit of the staged changes holds.
    fn staged_content(&self) -> (r: Tables)
        ensures
            r.deep_view() == commit_tables(self.deep_view(), head_tables(self.deep_view())),
    {
        let ghost s = self.deep_view();
        let ghost parent = head_tables(s);
        let before = self.committed_tables();
        let mut out: Tables = AssocMap::new();
        let old_names = sorted_keys(&before);
        let ghost a = old_names.deep_view();
        let mut i: usize = 0;
        while i < old_names.len()
            invariant
                i <= old_names@.len(),
                s == self.deep_view(),
                parent == before.deep_view(),
                a == old_names.deep_view(),
                a.to_set() == parent.dom(),
                forall|t: Seq<char>| #[trigger]
                    out.deep_view().dom().contains(t) <==> a.take(i as int).to_set().contains(t)
                        && !(s.tables.contains(t) && !s.work.dom().contains(t)),
                forall|t: Seq<char>| #[trigger]
                    out.deep_view().dom().contains(t) ==> out.deep_view()[t] == parent[t],
            decreases old_names.len() - i,
        {
            let ghost n = old_names@[i as int]@;
            proof {
                assert(a[i as int] == n);
                assert(a.to_set().contains(n));
                crate::names::lemma_take_set(a, i as int);
            }
            let gone = has_text(&self.tables, old_names[i].as_str()) && !self.work.contains(
                &old_names[i],
            );
            if !gone {
                match before.get(&old_names[i]) {
                    Some(snap) => {
                        out.insert(old_names[i].clone(), snap.dup());
                    },
                    None => {},
                }
            }
            i = i + 1;
        }
        assert(a.take(i as int) =~= a);
        let ghost kept = out.deep_view();
        let new_names = self.staged.sorted();
        let ghost b = new_names.deep_view();
        let mut k: usize = 0;
        assert(b.take(0) =~= seq![]);
        while k < new_names.len()
            invariant
                k <= new_names@.len(),
                s == self.deep_view(),
                b == new_names.deep_view(),
                b.to_set() == s.staged,
                forall|t: Seq<char>| #[trigger]
                    out.deep_view().dom().contains(t) <==> kept.dom().contains(t) || (b.take(
                        k as int,
                    ).to_set().contains(t) && s.work.dom().contains(t)),
                forall|t: Seq<char>| #[trigger]
                    out.deep_view().dom().contains(t) ==> out.deep_view()[t] == (if b.take(
                        k as int,
                    ).to_set().contains(t) && s.work.dom().contains(t) {
                        s.work[t]
                    } else {
                        kept[t]
                    }),
            decreases new_names.len() - k,
        {
            let ghost n = new_names@[k as int]@;
            proof {
                assert(b[k as int] == n);
                crate::names::lemma_take_set(b, k as int);
            }
            if let Some(snap) = self.work.get(&new_names[k]) {
                out.insert(new_names[k].clone(), snap.dup());
            }
            k = k + 1;
        }
        proof {
            assert(b.take(k as int) =~= b);
            assert(out.deep_view() =~= commit_tables(s, parent));
        }
        out
    }

    /// The parents of the next commit.
    fn parents_for_commit(&self) -> (r: Vec<CommitId>)
        ensures
            r.deep_view() == next_parents(self.deep_view()),
    {
        let mut parents: Vec<CommitId> = Vec::new();
        if let Some(id) = self.head_commit() {
            parents.push(id);
        }
        if let Some(m) = &self.merge_state {
            parents.push(m.theirs);
        }
        assert(parents.deep_view() =~= next_parents(self.deep_view()));
        parents
    }

    /// Commit the staged changes. Refused while conflicts remain, while
    /// violations remain and it is not forced, and where nothing is staged.
    pub fn dolt_commit(
        &mut self,
        msg: &str,
        author: Option<(&str, &str)>,
        all: bool,
        force: bool,
    ) -> (r: VersionResult<CommitId>)
        ensures
            ({
                let given = match author {
                    Some(a) => Some((a.0@, a.1@)),
                    None => None,
                };
                let (s, out) = committed(old(self).deep_view(), msg@, given, all, force);
                final(self).deep_view() == s && crate::model::outcome(r) == out
            }),
    {
        if all {
            match self.add_all() {
                Ok(_) => {},
                Err(e) => {
                    return Err(e);
                },
            }
        } else {
            match self.guard_write() {
                Ok(_) => {},
                Err(e) => {
                    return Err(e);
                },
            }
        }
        assert(self.conflicts.deep_view().len() == self.conflicts@.len());
        assert(self.violations.deep_view().len() == self.violations@.len());
        if self.conflicts.len() > 0 {
            return Err(VersionError::Conflicts);
        }
        if self.violations.len() > 0 && !force {
            return Err(VersionError::Violations);
        }
        if self.staged.is_empty() && self.merge_state.is_none() {
            return Err(VersionError::NothingToCommit);
        }
        let (name, email) = match author {
            Some((n, e)) => (n.to_owned(), e.to_owned()),
            None => match self.author() {
                Ok(a) => a,
                Err(e) => {
                    return Err(e);
                },
            },
        };
        Ok(self.commit_now(name, email, msg.to_owned()))
    }

    /// Commit the staged changes.
    fn commit_now(&mut self, name: String, email: String, msg: String) -> (id: CommitId)
        requires
            old(self).detached is None,
        ensures
            ({
                let s = old(self).deep_view();
                let c = new_commit(s, next_parents(s), (name@, email@), msg@);
                id@ == crate::commit::commit_id(c) && final(self).deep_view() == commit_staged(s, c)
            }),
    {
        let parents = self.parents_for_commit();
        let content = self.staged_content();
        let id = self.put_new_commit(parents, name, email, msg);
        self.record_tables(id, &content);
        self.refs.set(&RefName::branch(self.head.as_str()), id);
        let head = self.head.clone();
        self.branches.insert(head.as_str());
        self.staged = NameSet::new();
        self.violations = Vec::new();
        assert(self.violations.deep_view() =~= seq![]);
        self.merge_state = None;
        id
    }

    /// The working set becomes the committed contents at the head.
    pub fn sync_work_to_head(&mut self)
        ensures
            final(self).deep_view() == synced(old(self).deep_view()),
    {
        let ghost s = self.deep_view();
        let tables = self.committed_tables();
        let before = sorted_keys(&self.work);
        let after = sorted_keys(&tables);
        self.dirty_work.insert_all(&before);
        self.dirty_work.insert_all(&after);
        self.work = tables;
        let ghost list = after.deep_view();
        let mut i: usize = 0;
        while i < after.len()
            invariant
                i <= after@.len(),
                list == after.deep_view(),
                self.deep_view() == (StoreModel { tables: self.deep_view().tables, ..synced(s) }),
                with_names(self.deep_view().tables, list, i as int) == with_names(
                    s.tables,
                    list,
                    0,
                ),
            decreases after.len() - i,
        {
            let ghost had = self.tables.deep_view();
            assert(list[i as int] == after@[i as int]@);
            if !has_text(&self.tables, after[i].as_str()) {
                self.tables.push(after[i].clone());
                assert(self.tables.deep_view() =~= had.push(list[i as int]));
            }
            i = i + 1;
        }
    }

    /// The commit that a text names: `remotes/<remote>/<branch>` is a remote tip,
    /// anything else is a revision.
    pub fn resolve(&self, spec_text: &str) -> (r: VersionResult<CommitId>)
        ensures
            crate::model::outcome(r) == named(self.deep_view(), spec_text@),
    {
        let v = chars_of(spec_text);
        let prefix = chars_of("remotes/");
        if prefix.len() <= v.len() && matches_at(&v, &prefix, 0) {
            let rest = string_of(&v, prefix.len(), v.len());
            assert(rest@ =~= spec_text@.skip(tracking_prefix().len() as int));
            let mut slash: Vec<char> = Vec::new();
            slash.push('/');
            assert(slash@ =~= seq!['/']);
            return match cut_once(rest.as_str(), &slash) {
                Some(key) => match self.tracking.get(&key) {
                    Some(id) => Ok(*id),
                    None => Err(VersionError::BranchNotFound(spec_text.to_owned())),
                },
                None => Err(VersionError::BranchNotFound(spec_text.to_owned())),
            };
        }
        let rev = match parse_revision(spec_text) {
            Ok(rev) => rev,
            Err(e) => {
                return Err(e);
            },
        };
        assert(self.tables.deep_view().len() == self.tables@.len());
        let working = if self.tables.len() > 0 {
            Some(working_id())
        } else {
            None
        };
        resolve_revision(&self.commits, &self.refs, &rev, working, self.head_commit())
    }

    /// The changed tables by name.
    pub fn status(&self) -> (r: Vec<StatusRow>)
        ensures
            r.deep_view() == status_of(self.deep_view()),
    {
        let ghost s = self.deep_view();
        let mut all = self.staged.dup();
        all.insert_all(&self.unstaged.names);
        let names = all.sorted();
        let committed_now = self.committed_tables();
        let ghost list = names.deep_view();
        let ghost f = line_at(s, list);
        let mut out: Vec<StatusRow> = Vec::new();
        let mut i: usize = 0;
        assert(out.deep_view() =~= crate::constraints::gather(0, f));
        while i < names.len()
            invariant
                i <= names@.len(),
                s == self.deep_view(),
                list == names.deep_view(),
                committed_now.deep_view() == head_tables(s),
                f == line_at(s, list),
                out.deep_view() == crate::constraints::gather(i as int, f),
            decreases names.len() - i,
        {
            let ghost before = out.deep_view();
            let ghost t = names@[i as int]@;
            assert(list[i as int] == t);
            if self.staged.contains(names[i].as_str()) {
                let status = if !committed_now.contains(&names[i]) {
                    TableState::New
                } else if !self.work.contains(&names[i]) {
                    TableState::Deleted
                } else {
                    TableState::Modified
                };
                out.push(StatusRow { table: names[i].clone(), staged: true, status });
            }
            assert(out.deep_view() =~= before + crate::constraints::flag(
                s.staged.contains(t),
                staged_line(s, t),
            ));
            let ghost mid = out.deep_view();
            if self.unstaged.contains(names[i].as_str()) {
                out.push(
                    StatusRow {
                        table: names[i].clone(),
                        staged: false,
                        status: TableState::Modified,
                    },
                );
            }
            assert(out.deep_view() =~= mid + crate::constraints::flag(
                s.unstaged.contains(t),
                StatusModel { table: t, staged: false, status: TableState::Modified },
            ));
            assert(out.deep_view() =~= before + f(i as int));
            i = i + 1;
        }
        assert(all.deep_view() =~= s.staged.union(s.unstaged));
        out
    }

    /// Create a branch at the head. Before the first commit it has no tip yet.
    pub fn create_branch(&mut self, name: &str) -> (r: VersionResult<()>)
        ensures
            ({
                let (s, out) = branched(old(self).deep_view(), name@);
                final(self).deep_view() == s && crate::model::outcome(r) == out
            }),
    {
        match self.guard_write() {
            Ok(_) => {},
            Err(e) => {
                return Err(e);
            },
        }
        if self.branches.contains(name) || self.refs.get(&RefName::branch(name)).is_some() {
            return Err(VersionError::BranchAlreadyExists(name.to_owned()));
        }
        match self.head_commit() {
            Some(id) => {
                self.refs.set(&RefName::branch(name), id);
            },
            None => {},
        }
        self.branches.insert(name);
        Ok(())
    }

    /// Delete a branch.
    pub fn delete_branch(&mut self, name: &str) -> (r: VersionResult<()>)
        ensures
            ({
                let (s, out) = unbranched(old(self).deep_view(), name@);
                final(self).deep_view() == s && crate::model::outcome(r) == out
            }),
    {
        match self.guard_write() {
            Ok(_) => {},
            Err(e) => {
                return Err(e);
            },
        }
        if !self.branches.contains(name) {
            return Err(VersionError::BranchNotFound(name.to_owned()));
        }
        let _ = self.refs.delete(&RefName::branch(name));
        self.branches.remove(name);
        Ok(())
    }

    /// The branches by name.
    pub fn list_branches(&self) -> (r: Vec<String>)
        ensures
            r.deep_view() == crate::names::ordered(self.deep_view().branches),
    {
        self.branches.sorted()
    }

    /// Switch to a branch.
    pub fn checkout(&mut self, name: &str) -> (r: VersionResult<()>)
        ensures
            ({
                let (s, out) = checked_out(old(self).deep_view(), name@);
                final(self).deep_view() == s && crate::model::outcome(r) == out
            }),
    {
        match self.guard_no_replay_in_progress() {
            Ok(_) => {},
            Err(e) => {
                return Err(e);
            },
        }
        if !self.branches.contains(name) {
            return Err(VersionError::BranchNotFound(name.to_owned()));
        }
        self.head = name.to_owned();
        self.detached = None;
        Ok(())
    }

    /// Set a tag.
    pub fn create_tag(&mut self, name: &str, at: CommitId) -> (r: VersionResult<()>)
        ensures
            ({
                let (s, out) = tagged(old(self).deep_view(), name@, at@);
                final(self).deep_view() == s && crate::model::outcome(r) == out
            }),
    {
        match self.guard_write() {
            Ok(_) => {},
            Err(e) => {
                return Err(e);
            },
        }
        self.refs.set(&RefName::tag(name), at);
        Ok(())
    }

    /// Delete a tag.
    pub fn delete_tag(&mut self, name: &str) -> (r: VersionResult<()>)
        ensures
            ({
                let (s, out) = untagged(old(self).deep_view(), name@);
                final(self).deep_view() == s && crate::model::outcome(r) == out
            }),
    {
        match self.guard_write() {
            Ok(_) => {},
            Err(e) => {
                return Err(e);
            },
        }
        let ghost s = self.deep_view();
        if self.refs.delete(&RefName::tag(name)) {
            Ok(())
        } else {
            assert(s.refs.remove((RefNs::Tags, name@)) =~= s.refs);
            Err(VersionError::TagNotFound(name.to_owned()))
        }
    }

    /// Unstage everything.
    pub fn reset_soft(&mut self) -> (r: VersionResult<()>)
        ensures
            ({
                let (s, out) = soft_reset(old(self).deep_view());
                final(self).deep_view() == s && crate::model::outcome(r) == out
            }),
    {
        match self.guard_write() {
            Ok(_) => {},
            Err(e) => {
                return Err(e);
            },
        }
        let names = self.staged.sorted();
        self.unstaged.insert_all(&names);
        self.staged = NameSet::new();
        Ok(())
    }

    /// Drop every change.
    pub fn reset_hard(&mut self) -> (r: VersionResult<()>)
        ensures
            ({
                let (s, out) = hard_reset(old(self).deep_view());
                final(self).deep_view() == s && crate::model::outcome(r) == out
            }),
    {
        match self.guard_write() {
            Ok(_) => {},
            Err(e) => {
                return Err(e);
            },
        }
        self.sync_work_to_head();
        self.clear_staging();
        self.conflicts = Vec::new();
        self.violations = Vec::new();
        assert(self.conflicts.deep_view() =~= seq![]);
        assert(self.violations.deep_view() =~= seq![]);
        self.merge_state = None;
        Ok(())
    }

    /// Forget the tables that were never committed and are not staged; their
    /// names.
    pub fn clean(&mut self) -> (r: VersionResult<Vec<String>>)
        ensures
            match write_guard(old(self).deep_view()) {
                Some(e) => (r matches Err(x) && x.deep_view() == e) && final(self).deep_view()
                    == old(self).deep_view(),
                None => (r matches Ok(v) && v.deep_view() == crate::names::ordered(
                    strays(old(self).deep_view()),
                )) && final(self).deep_view() == cleaned(old(self).deep_view()),
            },
    {
        match self.guard_write() {
            Ok(_) => {},
            Err(e) => {
                return Err(e);
            },
        }
        let ghost s = self.deep_view();
        let committed_now = self.committed_tables();
        let kept = sorted_keys(&committed_now);
        let mut stray_set = self.unstaged.dup();
        stray_set.remove_all(&kept);
        let gone = stray_set.sorted();
        assert(stray_set.deep_view() == strays(s));
        self.unstaged.remove_all(&gone);
        self.dirty_work.insert_all(&gone);
        self.tables = without(&self.tables, &gone);
        self.forget_work(&gone);
        Ok(gone)
    }

    /// Drop the working contents of tables.
    fn forget_work(&mut self, gone: &Vec<String>)
        ensures
            final(self).deep_view() == (StoreModel {
                work: old(self).deep_view().work.remove_keys(gone.deep_view().to_set()),
                ..old(self).deep_view()
            }),
    {
        let ghost s = self.deep_view();
        let ghost g = gone.deep_view();
        let mut i: usize = 0;
        assert(s.work.remove_keys(g.take(0).to_set()) =~= s.work);
        while i < gone.len()
            invariant
                i <= gone@.len(),
                g == gone.deep_view(),
                self.deep_view() == (StoreModel {
                    work: s.work.remove_keys(g.take(i as int).to_set()),
                    ..s
                }),
            decreases gone.len() - i,
        {
            self.work.remove(&gone[i]);
            proof {
                crate::names::lemma_take_set(g, i as int);
                assert(g[i as int] == gone@[i as int]@);
                assert(self.work.deep_view() =~= s.work.remove_keys(g.take(i + 1).to_set()));
            }
            i = i + 1;
        }
        assert(g.take(i as int) =~= g);
    }

    /// Is there anything that is not committed?
    pub fn has_uncommitted(&self) -> (r: bool)
        ensures
            r == uncommitted(self.deep_view()),
    {
        assert(self.conflicts.deep_view().len() == self.conflicts@.len());
        !self.staged.is_empty() || !self.unstaged.is_empty() || self.conflicts.len() > 0
            || self.merge_state.is_some()
    }

    /// Is the store quiet: no transaction, nothing uncommitted, no rebase?
    pub fn gc_quiet(&self) -> (r: bool)
        ensures
            r == quiet(self.deep_view()),
    {
        !self.in_txn && !self.has_uncommitted() && self.rebase_state.is_none()
    }

    /// The commit with an id.
    pub fn get_commit(&self, id: &CommitId) -> (r: Option<Commit>)
        ensures
            r.deep_view() == crate::merge::lookup(self.deep_view().commits, id@),
    {
        self.commits.get_commit(id)
    }

    /// The remotes.
    pub fn remote_configs(&self) -> (r: &Vec<RemoteConfig>)
        ensures
            r.deep_view() == self.deep_view().remotes,
    {
        &self.remotes
    }

    /// Where a lazy clone finds the objects it did not copy.
    pub fn lazy_origin(&self) -> (r: Option<&str>)
        ensures
            match r {
                Some(u) => self.deep_view().lazy_origin == Some(u@),
                None => self.deep_view().lazy_origin is None,
            },
    {
        match &self.lazy_origin {
            Some(u) => Some(u.as_str()),
            None => None,
        }
    }

    /// The tables to write back with their contents, by name. They count as written
    /// back then.
    pub fn take_work_changes(&mut self) -> (r: Vec<(String, TableSnapshot)>)
        ensures
            r.deep_view() == changes_in(
                old(self).deep_view().work,
                crate::names::ordered(old(self).deep_view().dirty_work),
            ),
            final(self).deep_view() == (StoreModel {
                dirty_work: Set::empty(),
                ..old(self).deep_view()
            }),
    {
        let names = self.dirty_work.sorted();
        let ghost list = names.deep_view();
        let mut out: Vec<(String, TableSnapshot)> = Vec::new();
        let mut i: usize = 0;
        assert(list.take(0) =~= seq![]);
        assert(out.deep_view() =~= seq![]);
        while i < names.len()
            invariant
                i <= names@.len(),
                list == names.deep_view(),
                self.deep_view() == old(self).deep_view(),
                out.deep_view() == changes_in(self.deep_view().work, list.take(i as int)),
            decreases names.len() - i,
        {
            let ghost before = out.deep_view();
            proof {
                assert(list[i as int] == names@[i as int]@);
                assert(list.take(i + 1).drop_last() =~= list.take(i as int));
            }
            if let Some(snap) = self.work_table(names[i].as_str()) {
                let ghost m = snap.deep_view();
                out.push((names[i].clone(), snap.dup()));
                assert(out.deep_view() =~= before.push((list[i as int], m)));
            }
            i = i + 1;
        }
        assert(list.take(i as int) =~= list);
        self.dirty_work = NameSet::new();
        out
    }
}

/// The tables of a list that the working set has, with their contents.
pub open spec fn changes_in(work: TablesModel, names: Seq<Seq<char>>) -> Seq<(Seq<char>, SnapModel)>
    decreases names.len(),
{
    if names.len() == 0 {
        seq![]
    } else {
        let before = changes_in(work, names.drop_last());
        if work.dom().contains(names.last()) {
            before.push((names.last(), work[names.last()]))
        } else {
            before
        }
    }
}

/// The names of a list that are not in another.
fn without(names: &Vec<String>, gone: &Vec<String>) -> (r: Vec<String>)
    ensures
        r.deep_view() == names.deep_view().filter(
            |t: Seq<char>| !gone.deep_view().to_set().contains(t),
        ),
{
    let ghost n = names.deep_view();
    let ghost p = |t: Seq<char>| !gone.deep_view().to_set().contains(t);
    let mut out: Vec<String> = Vec::new();
    let mut i: usize = 0;
    proof {
        reveal(Seq::filter);
        assert(n.take(0).filter(p) =~= seq![]);
        assert(out.deep_view() =~= seq![]);
    }
    while i < names.len()
        invariant
            i <= names@.len(),
            n == names.deep_view(),
            p == (|t: Seq<char>| !gone.deep_view().to_set().contains(t)),
            out.deep_view() == n.take(i as int).filter(p),
        decreases names.len() - i,
    {
        proof {
            reveal(Seq::filter);
            assert(n.take(i + 1).drop_last() =~= n.take(i as int));
            assert(n.take(i + 1).last() == names@[i as int]@);
        }
        let ghost before = out.deep_view();
        if !has_text(gone, names[i].as_str()) {
            out.push(names[i].clone());
            assert(out.deep_view() =~= before.push(n[i as int]));
        }
        i = i + 1;
    }
    assert(n.take(i as int) =~= n);
    out
}

// ---------------------------------------------------------------------------
// Laws
// ---------------------------------------------------------------------------

/// A refused commit leaves commits, references and snapshots alone.
pub proof fn law_refused_commit_changes_no_history(
    s: StoreModel,
    msg: Seq<char>,
    given: Option<(Seq<char>, Seq<char>)>,
    all: bool,
    force: bool,
)
    ensures
        ({
            let (t, out) = committed(s, msg, given, all, force);
            out is Err ==> t.commits == s.commits && t.refs == s.refs && t.snapshots == s.snapshots
                && t.work == s.work
        }),
{
}

/// No commit passes while conflicts remain, forced or not.
pub proof fn law_conflicts_block_commit(
    s: StoreModel,
    msg: Seq<char>,
    given: Option<(Seq<char>, Seq<char>)>,
    all: bool,
    force: bool,
)
    requires
        s.conflicts.len() > 0,
        s.detached is None,
    ensures
        committed(s, msg, given, all, force).1 == Err::<Seq<u8>, Fault>(VersionError::Conflicts),
{
}

/// On a detached head branches, tags, the stage and the history cannot be written: each
/// such operation is refused and changes nothing.
pub proof fn law_detached_head_is_read_only(
    s: StoreModel,
    names: Seq<Seq<char>>,
    msg: Seq<char>,
    given: Option<(Seq<char>, Seq<char>)>,
    all: bool,
    force: bool,
    name: Seq<char>,
    at: Seq<u8>,
)
    requires
        s.detached is Some,
    ensures
        branched(s, name) == (s, Err::<(), Fault>(VersionError::DetachedHeadWrite)),
        unbranched(s, name) == (s, Err::<(), Fault>(VersionError::DetachedHeadWrite)),
        tagged(s, name, at) == (s, Err::<(), Fault>(VersionError::DetachedHeadWrite)),
        untagged(s, name) == (s, Err::<(), Fault>(VersionError::DetachedHeadWrite)),
        add_tables(s, names) == (s, Err::<(), Fault>(VersionError::DetachedHeadWrite)),
        committed(s, msg, given, all, force) == (
            s,
            Err::<Seq<u8>, Fault>(VersionError::DetachedHeadWrite),
        ),
        soft_reset(s) == (s, Err::<(), Fault>(VersionError::DetachedHeadWrite)),
        hard_reset(s) == (s, Err::<(), Fault>(VersionError::DetachedHeadWrite)),
{
}

/// Unstaging what was staged brings the changes back: nothing is lost.
pub proof fn law_reset_undoes_add(s: StoreModel, names: Seq<Seq<char>>)
    requires
        s.detached is None,
        s.staged == Set::<Seq<char>>::empty(),
        names.to_set().subset_of(s.unstaged),
        untracked_from(s.tables, names, 0) is None,
    ensures
        soft_reset(add_tables(s, names).0).0 == s,
{
    let t = add_tables(s, names).0;
    let u = soft_reset(t).0;
    assert(u.unstaged =~= s.unstaged);
    assert(u.staged =~= s.staged);
}

/// After a commit the head names it, nothing is staged, and the other branches
/// and tags are where they were.
pub proof fn law_commit_moves_only_its_branch(
    s: StoreModel,
    msg: Seq<char>,
    given: Option<(Seq<char>, Seq<char>)>,
    all: bool,
    force: bool,
    other: (RefNs, Seq<char>),
)
    requires
        other != (RefNs::Heads, s.head),
    ensures
        ({
            let (t, out) = committed(s, msg, given, all, force);
            &&& out matches Ok(id) ==> head_of(t) == Some(id) && t.staged == Set::<
                Seq<char>,
            >::empty() && t.commits.dom().contains(id)
            &&& crate::merge::lookup(t.refs, other) == crate::merge::lookup(s.refs, other)
        }),
{
}

/// Recorded tables read back, and the tables of other commits stay.
pub proof fn lemma_record_list(
    snaps: SnapshotsModel,
    index: IndexModel,
    id: Seq<u8>,
    tables: TablesModel,
    list: Seq<Seq<char>>,
    i: int,
    t: Seq<char>,
    other: Seq<u8>,
)
    requires
        0 <= i <= list.len(),
    ensures
        ({
            let (after, _) = record_list(snaps, index, id, tables, list, i);
            let before = crate::remote_wire::tables_at(snaps, id);
            let now = crate::remote_wire::tables_at(after, id);
            &&& list.skip(i).contains(t) ==> now.dom().contains(t) && now[t] == tables[t]
            &&& !list.skip(i).contains(t) ==> crate::merge::lookup(now, t)
                == crate::merge::lookup(before, t)
            &&& other != id ==> crate::remote_wire::tables_at(after, other)
                == crate::remote_wire::tables_at(snaps, other)
        }),
    decreases list.len() - i,
{
    let left = list.skip(i);
    if i < list.len() {
        let x = list[i];
        let rest = list.skip(i + 1);
        lemma_record_list(
            crate::remote_wire::with_snapshot(snaps, id, x, tables[x]),
            index.insert(crate::remote_wire::record_id(id, x, tables[x]), (id, x)),
            id,
            tables,
            list,
            i + 1,
            t,
            other,
        );
        assert(left[0] == x);
        if rest.contains(t) {
            let k = choose|k: int| 0 <= k < rest.len() && rest[k] == t;
            assert(left[k + 1] == t);
        } else if left.contains(t) {
            let k = choose|k: int| 0 <= k < left.len() && left[k] == t;
            if k > 0 {
                assert(rest[k - 1] == t);
            }
        }
    } else {
        assert(left =~= seq![]);
    }
}

/// A commit reads back: a staged table has at the commit the contents that it had in the
/// working set, any other table of the head that is still worked on has those of the
/// head, and no earlier commit changes.
pub proof fn law_commit_reads_back(
    s: StoreModel,
    msg: Seq<char>,
    given: Option<(Seq<char>, Seq<char>)>,
    all: bool,
    force: bool,
    id: Seq<u8>,
    table: Seq<char>,
    other: Seq<u8>,
)
    requires
        s.work.dom().finite(),
        head_tables(s).dom().finite(),
        committed(s, msg, given, all, force).1 == Ok::<Seq<u8>, Fault>(id),
        s.work.dom().contains(table),
        other != id,
    ensures
        ({
            let t = committed(s, msg, given, all, force).0;
            let now = crate::remote_wire::tables_at(t.snapshots, id);
            let staged = s.staged.contains(table) || (all && s.unstaged.contains(table));
            &&& staged ==> now.dom().contains(table) && now[table] == s.work[table]
            &&& !staged && head_tables(s).dom().contains(table) ==> now.dom().contains(table)
                && now[table] == head_tables(s)[table]
            &&& crate::remote_wire::tables_at(t.snapshots, other)
                == crate::remote_wire::tables_at(s.snapshots, other)
        }),
{
    let t = if all {
        staged_with(s, s.unstaged)
    } else {
        s
    };
    let content = commit_tables(t, head_tables(t));
    let bound = s.work.dom().union(head_tables(s).dom());
    assert(content.dom().subset_of(bound));
    vstd::set_lib::lemma_set_subset_finite(bound, content.dom());
    crate::names::law_ordered(content.dom());
    let list = crate::names::ordered(content.dom());
    assert(list.skip(0) =~= list);
    assert(list.to_set().contains(table) == list.contains(table));
    lemma_record_list(s.snapshots, s.snap_index, id, content, list, 0, table, other);
}

} // verus!
