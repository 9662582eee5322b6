//! Merge, cherry-pick, revert and rebase.
//!
//! Every driver is a three-way merge over the committed snapshots. A rebase
//! replays a plan of such merges onto a new base and commits each clean group.

use vstd::prelude::*;

use crate::assoc::AssocMap;
use crate::commit::{ancestors, has_id, merge_base, Commit, CommitModel, CommitStore};
use crate::conflicts::ConflictEntry;
use crate::constraints::{MergedTable, MergedWork};
use crate::merge_schema::SchemaIR;
use crate::model::{CommitId, VersionError, VersionResult};
use crate::names::sorted_keys;
use crate::refs::{RefName, RefNs};
pub use crate::replay_state::{MergeState, RebaseState, RebaseStep};
use crate::replay_state::{MergeStateModel, RebaseStateModel, StepModel};
use crate::staging::{tables_of, SnapModel, StoreModel, TableSnapshot, VcStore};
use crate::table_merge::{
    distinct_conflicted_tables, merge_snapshots, schema_conflict, schema_of, Fault, MergedModel,
    MergedTables, Tables, TablesModel,
};
use crate::text::{cat3, cat5, Dup};
use crate::values::{RowModel, VcRow};

verus! {

/// Outcome of a driver, over the types of a commit id and of a text.
#[derive(Debug, Clone, PartialEq, Eq)]
pub enum MergeResult<C = CommitId, S = String> {
    /// A commit was made.
    Committed(C),
    /// Conflicts were recorded.
    Conflicts { rows: usize, tables: usize },
    /// A schema conflict blocked the merge of the data.
    SchemaConflict { table: S, detail: S },
    /// The working set changed without a commit.
    Applied,
}

/// What an outcome stands for.
pub type ResultModel = MergeResult<Seq<u8>, Seq<char>>;

impl DeepView for MergeResult {
    type V = ResultModel;

    open spec fn deep_view(&self) -> ResultModel {
        match *self {
            MergeResult::Committed(id) => MergeResult::Committed(id@),
            MergeResult::Conflicts { rows, tables } => MergeResult::Conflicts { rows, tables },
            MergeResult::SchemaConflict { table, detail } => MergeResult::SchemaConflict {
                table: table@,
                detail: detail@,
            },
            MergeResult::Applied => MergeResult::Applied,
        }
    }
}

/// The merge status of one table.
#[derive(Debug, Clone, PartialEq, Eq)]
pub struct MergeStatusRow {
    pub table: String,
    pub rows_merged: i64,
    pub rows_conflicted: i64,
    pub schema_conflict: i64,
    pub state: String,
}

/// What a merge status stands for.
pub struct MergeStatusModel {
    pub table: Seq<char>,
    pub rows_merged: i64,
    pub rows_conflicted: i64,
    pub schema_conflict: i64,
    pub state: Seq<char>,
}

impl DeepView for MergeStatusRow {
    type V = MergeStatusModel;

    open spec fn deep_view(&self) -> MergeStatusModel {
        MergeStatusModel {
            table: self.table@,
            rows_merged: self.rows_merged,
            rows_conflicted: self.rows_conflicted,
            schema_conflict: self.schema_conflict,
            state: self.state@,
        }
    }
}

// ---------------------------------------------------------------------------
// Commits of replays
// ---------------------------------------------------------------------------

/// The tables at a commit that there may not be.
pub open spec fn snap_at(s: StoreModel, id: Option<Seq<u8>>) -> TablesModel {
    match id {
        Some(c) => crate::remote_wire::tables_at(s.snapshots, c),
        None => Map::empty(),
    }
}

/// Other working contents, which the host has to write back.
pub open spec fn with_work(s: StoreModel, work: TablesModel) -> StoreModel {
    StoreModel { work, dirty_work: s.dirty_work.union(work.dom()), ..s }
}

/// Other working contents, all staged.
pub open spec fn with_staged_work(s: StoreModel, work: TablesModel) -> StoreModel {
    crate::staging::staged_with(with_work(s, work), work.dom())
}

/// Put a commit with tables among the commits; no reference moves. It holds the
/// tables of its first parent and over them the given ones.
#[verifier::opaque]
pub open spec fn put_replay(
    s: StoreModel,
    parents: Seq<Seq<u8>>,
    msg: Seq<char>,
    content: TablesModel,
) -> (StoreModel, Result<Seq<u8>, Fault>) {
    match crate::staging::author_of(s, None) {
        None => (s, Err(VersionError::InvalidAuthor)),
        Some(author) => {
            let c = crate::staging::new_commit(s, parents, author, msg);
            let id = crate::commit::commit_id(c);
            let first = if parents.len() > 0 {
                Some(parents[0])
            } else {
                None
            };
            let put = StoreModel { commits: s.commits.insert(id, c), ..s };
            (
                crate::staging::recorded(put, id, snap_at(s, first).union_prefer_right(content)),
                Ok(id),
            )
        },
    }
}

/// Move a branch from where it is expected to be.
pub open spec fn swapped(
    s: StoreModel,
    expected: Option<Seq<u8>>,
    next: Seq<u8>,
) -> Option<StoreModel> {
    let name = (RefNs::Heads, s.head);
    if crate::merge::lookup(s.refs, name) == expected {
        Some(StoreModel { refs: s.refs.insert(name, next), ..s })
    } else {
        None
    }
}

/// Nothing is staged and nothing is changed.
pub open spec fn unstaged_all(s: StoreModel) -> StoreModel {
    StoreModel { staged: Set::empty(), unstaged: Set::empty(), ..s }
}

/// Commit the working contents and move the current branch to the commit.
#[verifier::opaque]
pub open spec fn commit_work(s: StoreModel, parents: Seq<Seq<u8>>, msg: Seq<char>) -> (
    StoreModel,
    Result<Seq<u8>, Fault>,
) {
    let (t, put) = put_replay(s, parents, msg, s.work);
    match put {
        Err(e) => (t, Err(e)),
        Ok(id) => {
            let first = if parents.len() > 0 {
                Some(parents[0])
            } else {
                None
            };
            match swapped(t, first, id) {
                None => (t, Err(VersionError::DatabaseLocked)),
                Some(u) => (
                    StoreModel {
                        conflicts: seq![],
                        violations: seq![],
                        rebase_state: None,
                        ..unstaged_all(u)
                    },
                    Ok(id),
                ),
            }
        },
    }
}

/// The report of conflicts.
pub open spec fn conflict_report(m: MergedModel) -> ResultModel {
    match crate::table_merge::schema_clash(m.conflicts) {
        Some((table, detail)) => MergeResult::SchemaConflict { table, detail },
        None => MergeResult::Conflicts {
            rows: m.conflicts.len() as usize,
            tables: crate::table_merge::conflicted_tables(m.conflicts) as usize,
        },
    }
}

// ---------------------------------------------------------------------------
// Merge
// ---------------------------------------------------------------------------

/// The base of a merge: a chosen parent of the other side, or the merge base.
pub open spec fn base_of(s: StoreModel, ours: Seq<u8>, theirs: Seq<u8>, parent: Option<usize>) -> Result<
    Option<Seq<u8>>,
    Fault,
> {
    if s.commits.dom().contains(theirs) && parent is Some {
        let parents = s.commits[theirs].parents;
        let p = parent->0;
        if p >= parents.len() {
            Err(VersionError::CherryPickMergeNeedsParent(parents.len() as usize))
        } else {
            Ok(Some(parents[p as int]))
        }
    } else {
        crate::commit::merge_base_of(s.commits, ours, theirs)
    }
}

/// An open merge with its working contents and conflicts.
pub open spec fn merge_opened(s: StoreModel, m: MergedModel, theirs: Seq<u8>) -> StoreModel {
    StoreModel {
        conflicts: s.conflicts + m.conflicts,
        merge_state: Some(
            MergeStateModel { theirs, work_before: s.work, stats: m.stats },
        ),
        ..with_staged_work(s, m.work)
    }
}

/// Commit a merge without conflicts: two parents or, squashed, one.
pub open spec fn merge_committed(
    s: StoreModel,
    work: TablesModel,
    ours: Seq<u8>,
    theirs: Seq<u8>,
    name: Seq<char>,
    squash: bool,
) -> (StoreModel, Result<ResultModel, Fault>) {
    let msg = "Merge branch '"@ + name + "' into '"@ + s.head + "'"@;
    let parents = if squash {
        seq![ours]
    } else {
        seq![ours, theirs]
    };
    let (t, out) = commit_work(with_work(s, work), parents, msg);
    match out {
        Err(e) => (t, Err(e)),
        Ok(id) => (StoreModel { merge_state: None, ..t }, Ok(MergeResult::Committed(id))),
    }
}

/// What becomes of a merge of tables.
pub open spec fn merge_placed(
    s: StoreModel,
    m: MergedModel,
    ours: Seq<u8>,
    theirs: Seq<u8>,
    name: Seq<char>,
    squash: bool,
    no_commit: bool,
) -> (StoreModel, Result<ResultModel, Fault>) {
    if m.conflicts.len() > 0 {
        (merge_opened(s, m, theirs), Ok(conflict_report(m)))
    } else if no_commit {
        (merge_opened(s, m, theirs), Ok(MergeResult::Applied))
    } else {
        merge_committed(s, m.work, ours, theirs, name, squash)
    }
}

/// Merge another side into the current branch.
pub open spec fn merge_run(
    s: StoreModel,
    theirs: Seq<char>,
    squash: bool,
    no_commit: bool,
    parent: Option<usize>,
) -> (StoreModel, Result<ResultModel, Fault>) {
    match crate::staging::write_guard(s) {
        Some(e) => (s, Err(e)),
        None => match crate::staging::replay_guard(s) {
            Some(e) => (s, Err(e)),
            None => match crate::staging::head_of(s) {
                None => (s, Err(VersionError::NothingToCommit)),
                Some(ours) => match crate::staging::named(s, theirs) {
                    Err(e) => (s, Err(e)),
                    Ok(id) => match base_of(s, ours, id, parent) {
                        Err(e) => (s, Err(e)),
                        Ok(base) => match crate::table_merge::merge_tables(
                            snap_at(s, base),
                            snap_at(s, Some(ours)),
                            snap_at(s, Some(id)),
                        ) {
                            Err(e) => (s, Err(e)),
                            Ok(m) => merge_placed(s, m, ours, id, theirs, squash, no_commit),
                        },
                    },
                },
            },
        },
    }
}

/// Abort an open merge: the working set is the one from before it.
pub open spec fn merge_aborted(s: StoreModel) -> (StoreModel, Result<(), Fault>) {
    match crate::staging::write_guard(s) {
        Some(e) => (s, Err(e)),
        None => match s.merge_state {
            None => (s, Err(VersionError::NoMergeInProgress)),
            Some(m) => (
                StoreModel {
                    merge_state: None,
                    conflicts: seq![],
                    ..unstaged_all(with_work(s, m.work_before))
                },
                Ok(()),
            ),
        },
    }
}

/// The status line of a table of an open merge.
pub open spec fn status_line(s: StoreModel, m: MergeStateModel, table: Seq<char>) -> MergeStatusModel {
    MergeStatusModel {
        table,
        rows_merged: m.stats[table].rows_merged,
        rows_conflicted: m.stats[table].rows_conflicted,
        schema_conflict: if m.stats[table].schema_conflict {
            1
        } else {
            0
        },
        state: if s.conflicts.len() == 0 {
            "clean"@
        } else {
            "conflicted"@
        },
    }
}

/// The status of an open merge, by table.
pub open spec fn merge_status(s: StoreModel) -> Seq<MergeStatusModel> {
    match s.merge_state {
        None => seq![],
        Some(m) => crate::names::ordered(m.stats.dom()).map_values(
            |t: Seq<char>| status_line(s, m, t),
        ),
    }
}

// ---------------------------------------------------------------------------
// Cherry-pick and revert
// ---------------------------------------------------------------------------

/// The parent that a replay of a commit goes by. A merge commit needs a choice.
pub open spec fn chosen_parent(c: CommitModel, parent: Option<usize>) -> Result<
    Option<Seq<u8>>,
    Fault,
> {
    let n = c.parents.len();
    if (n > 1 && parent is None) || (parent is Some && parent->0 >= n) {
        Err(VersionError::CherryPickMergeNeedsParent(n as usize))
    } else if n == 0 {
        Ok(None)
    } else {
        Ok(
            Some(
                c.parents[match parent {
                    Some(p) => p as int,
                    None => 0,
                }],
            ),
        )
    }
}

/// Replay the change from `base` to `theirs` onto the head and commit it.
pub open spec fn replayed(
    s: StoreModel,
    base: TablesModel,
    theirs: TablesModel,
    ours: Seq<u8>,
    msg: Seq<char>,
) -> (StoreModel, Result<ResultModel, Fault>) {
    match crate::table_merge::merge_tables(base, snap_at(s, Some(ours)), theirs) {
        Err(e) => (s, Err(e)),
        Ok(m) => if m.conflicts.len() > 0 {
            (
                StoreModel {
                    conflicts: s.conflicts + m.conflicts,
                    ..with_staged_work(s, m.work)
                },
                Ok(conflict_report(m)),
            )
        } else {
            let (t, out) = commit_work(with_work(s, m.work), seq![ours], msg);
            match out {
                Err(e) => (t, Err(e)),
                Ok(id) => (t, Ok(MergeResult::Committed(id))),
            }
        },
    }
}

/// A commit to replay: its id, itself and the parent to go by.
pub open spec fn replay_source(s: StoreModel, spec_text: Seq<char>, parent: Option<usize>) -> Result<
    (Seq<u8>, CommitModel, Option<Seq<u8>>),
    Fault,
> {
    match crate::staging::write_guard(s) {
        Some(e) => Err(e),
        None => match crate::staging::replay_guard(s) {
            Some(e) => Err(e),
            None => match crate::staging::named(s, spec_text) {
                Err(e) => Err(e),
                Ok(id) => if !s.commits.dom().contains(id) {
                    Err(crate::commit::missing(id))
                } else {
                    match chosen_parent(s.commits[id], parent) {
                        Err(e) => Err(e),
                        Ok(p) => Ok((id, s.commits[id], p)),
                    }
                },
            },
        },
    }
}

/// Replay a commit onto the head.
pub open spec fn cherry_picked(s: StoreModel, spec_text: Seq<char>, parent: Option<usize>) -> (
    StoreModel,
    Result<ResultModel, Fault>,
) {
    match replay_source(s, spec_text, parent) {
        Err(e) => (s, Err(e)),
        Ok((id, c, base)) => match crate::staging::head_of(s) {
            None => (s, Err(VersionError::NothingToCommit)),
            Some(ours) => replayed(s, snap_at(s, base), snap_at(s, Some(id)), ours, c.message),
        },
    }
}

/// Tables without their rows.
pub open spec fn emptied(tables: TablesModel) -> TablesModel {
    tables.map_values(|t: SnapModel| SnapModel { rows: seq![], ..t })
}

/// What was before a commit: the tables of its parent. Before the first commit its
/// tables were empty.
pub open spec fn tables_before(s: StoreModel, id: Seq<u8>, parent: Option<Seq<u8>>) -> TablesModel {
    match parent {
        Some(p) => snap_at(s, Some(p)),
        None => emptied(snap_at(s, Some(id))),
    }
}

/// Replay the inverse of a commit onto the head.
pub open spec fn reverted(s: StoreModel, spec_text: Seq<char>, parent: Option<usize>) -> (
    StoreModel,
    Result<ResultModel, Fault>,
) {
    match replay_source(s, spec_text, parent) {
        Err(e) => (s, Err(e)),
        Ok((id, c, to)) => match crate::staging::head_of(s) {
            None => (s, Err(VersionError::NothingToCommit)),
            Some(ours) => replayed(
                s,
                snap_at(s, Some(id)),
                tables_before(s, id, to),
                ours,
                "Revert \""@ + c.message + "\""@,
            ),
        },
    }
}

// ---------------------------------------------------------------------------
// Rebase
// ---------------------------------------------------------------------------

/// The plan of a rebase: the commits of the head's first-parent chain that the
/// new base does not have, oldest first.
pub open spec fn plan_of(s: StoreModel, head: Seq<u8>, onto: Seq<u8>) -> Result<
    Seq<StepModel>,
    Fault,
> {
    match crate::commit::ancestors_of(s.commits, head) {
        Err(e) => Err(e),
        Ok(chain) => match crate::commit::ancestors_of(s.commits, onto) {
            Err(e) => Err(e),
            Ok(known) => Ok(
                chain.filter(|c: Seq<u8>| !known.contains(c)).reverse().map_values(
                    |c: Seq<u8>| StepModel::Pick(c),
                ),
            ),
        },
    }
}

/// The commit of a step.
pub open spec fn step_commit(step: StepModel) -> Seq<u8> {
    match step {
        RebaseStep::Pick(c) => c,
        RebaseStep::Drop(c) => c,
        RebaseStep::Reword(c, _) => c,
        RebaseStep::Squash(c) => c,
        RebaseStep::Fixup(c) => c,
    }
}

/// Does a step fold into the group before it?
pub open spec fn folds(step: StepModel) -> bool {
    step is Squash || step is Fixup
}

/// A rebase under way: the store, the replayed tip, the working contents, the
/// message of the open group and its last member.
pub struct RebaseRun {
    pub s: StoreModel,
    pub tip: Seq<u8>,
    pub work: TablesModel,
    pub message: Option<Seq<char>>,
    pub group: Option<Seq<u8>>,
}

/// The base of a step: the last member of the group, or the commit's parent.
pub open spec fn step_base(run: RebaseRun, step: StepModel, c: CommitModel) -> Option<Seq<u8>> {
    if folds(step) {
        run.group
    } else if c.parents.len() == 0 {
        None
    } else {
        Some(c.parents[0])
    }
}

/// The message of a group after a step.
pub open spec fn step_message(step: StepModel, c: CommitModel, before: Option<Seq<char>>) -> Option<
    Seq<char>,
> {
    match step {
        RebaseStep::Reword(_, m) => Some(m),
        RebaseStep::Pick(_) => Some(c.message),
        RebaseStep::Squash(_) => match before {
            Some(m) => Some(m + "\n\n"@ + c.message),
            None => Some(c.message),
        },
        _ => before,
    }
}

/// The merge of a step onto what is replayed.
pub open spec fn step_merge(run: RebaseRun, step: StepModel, c: CommitModel) -> Result<
    MergedModel,
    Fault,
> {
    crate::table_merge::merge_tables(
        snap_at(run.s, step_base(run, step, c)),
        if folds(step) {
            run.work
        } else {
            snap_at(run.s, Some(run.tip))
        },
        snap_at(run.s, Some(step_commit(step))),
    )
}

/// What stays the same through a rebase.
pub struct RebasePlan {
    pub steps: Seq<StepModel>,
    pub onto: Seq<u8>,
    pub original_head: Seq<u8>,
    pub work_before: TablesModel,
}

/// A rebase that stops at a conflict: the working set is the one from before,
/// and the rebase waits for a resolution.
pub open spec fn rebase_paused(run: RebaseRun, plan: RebasePlan, i: int, m: MergedModel) -> Turn {
    let hash = crate::digest::hex_text(step_commit(plan.steps[i]));
    Turn::End(
        StoreModel {
            conflicts: run.s.conflicts + m.conflicts,
            work: plan.work_before,
            rebase_state: Some(
                RebaseStateModel {
                    original_head: plan.original_head,
                    onto: plan.onto,
                    steps: plan.steps.skip(i + 1),
                    replay_head: run.tip,
                    rebase_work: m.work,
                    combined_message: run.message,
                    conflicted_hash: hash,
                    work_before: plan.work_before,
                },
            ),
            ..run.s
        },
        match crate::table_merge::schema_clash(m.conflicts) {
            Some((table, detail)) => VersionError::SchemaConflict(table, detail),
            None => VersionError::RebaseConflict(hash),
        },
    )
}

/// A rebase whose steps are all done: the branch moves to the replayed tip.
pub open spec fn rebase_done(run: RebaseRun, plan: RebasePlan) -> (
    StoreModel,
    Result<Seq<u8>, Fault>,
) {
    match swapped(run.s, Some(plan.original_head), run.tip) {
        None => (run.s, Err(VersionError::DatabaseLocked)),
        Some(t) => (unstaged_all(with_work(t, run.work)), Ok(run.tip)),
    }
}

/// What one step comes to: the run goes on, or the rebase ends.
pub enum Turn {
    On(RebaseRun),
    End(StoreModel, Fault),
}

/// Close the group of a clean step, or leave it open for the step behind it.
#[verifier::opaque]
pub open spec fn group_turn(
    run: RebaseRun,
    plan: RebasePlan,
    i: int,
    c: CommitModel,
    work: TablesModel,
) -> Turn {
    let message = step_message(plan.steps[i], c, run.message);
    if i + 1 < plan.steps.len() && folds(plan.steps[i + 1]) {
        Turn::On(RebaseRun { work, message, group: Some(step_commit(plan.steps[i])), ..run })
    } else {
        let text = match message {
            Some(t) => t,
            None => c.message,
        };
        let (t, out) = put_replay(run.s, seq![run.tip], text, work);
        match out {
            Err(e) => Turn::End(t, e),
            Ok(tip) => Turn::On(
                RebaseRun {
                    s: StoreModel { work, ..t },
                    tip,
                    work,
                    message: None,
                    group: None,
                },
            ),
        }
    }
}

/// Step `i` of a rebase.
#[verifier::opaque]
pub open spec fn step_turn(run: RebaseRun, plan: RebasePlan, i: int) -> Turn {
    let step = plan.steps[i];
    let id = step_commit(step);
    if step is Drop {
        Turn::On(run)
    } else if !run.s.commits.dom().contains(id) {
        Turn::End(run.s, crate::commit::missing(id))
    } else {
        let c = run.s.commits[id];
        match step_merge(run, step, c) {
            Err(e) => Turn::End(run.s, e),
            Ok(m) => if m.conflicts.len() > 0 {
                rebase_paused(run, plan, i, m)
            } else {
                group_turn(run, plan, i, c, m.work)
            },
        }
    }
}

/// The steps of a rebase from place `i` on.
pub open spec fn rebase_from(run: RebaseRun, plan: RebasePlan, i: int) -> (
    StoreModel,
    Result<Seq<u8>, Fault>,
)
    decreases plan.steps.len() - i,
{
    if i >= plan.steps.len() {
        rebase_done(run, plan)
    } else {
        match step_turn(run, plan, i) {
            Turn::On(next) => rebase_from(next, plan, i + 1),
            Turn::End(s, e) => (s, Err(e)),
        }
    }
}

/// Replay a plan.
pub open spec fn rebase_run(s: StoreModel, plan: RebasePlan, start: Seq<u8>) -> (
    StoreModel,
    Result<Seq<u8>, Fault>,
) {
    rebase_from(
        RebaseRun { s, tip: start, work: Map::empty(), message: None, group: None },
        plan,
        0,
    )
}

/// A finished rebase is no longer under way.
pub open spec fn rebase_closed(r: (StoreModel, Result<Seq<u8>, Fault>)) -> (
    StoreModel,
    Result<Seq<u8>, Fault>,
) {
    match r.1 {
        Ok(id) => (StoreModel { rebase_state: None, ..r.0 }, Ok(id)),
        Err(e) => r,
    }
}

/// The plan of a rebase of the head: the new base, the head and the steps.
pub open spec fn rebase_source(s: StoreModel, onto_text: Seq<char>) -> Result<
    (Seq<u8>, Seq<u8>, Seq<StepModel>),
    Fault,
> {
    match crate::staging::write_guard(s) {
        Some(e) => Err(e),
        None => match crate::staging::replay_guard(s) {
            Some(e) => Err(e),
            None => match crate::staging::named(s, onto_text) {
                Err(e) => Err(e),
                Ok(onto) => match crate::staging::head_of(s) {
                    None => Err(VersionError::NothingToCommit),
                    Some(head) => match plan_of(s, head, onto) {
                        Err(e) => Err(e),
                        Ok(steps) => Ok((onto, head, steps)),
                    },
                },
            },
        },
    }
}

/// Rebase the current branch.
pub open spec fn rebased(s: StoreModel, onto_text: Seq<char>) -> (StoreModel, Result<Seq<u8>, Fault>) {
    match rebase_source(s, onto_text) {
        Err(e) => (s, Err(e)),
        Ok((onto, head, steps)) => rebase_closed(
            rebase_run(
                s,
                RebasePlan { steps, onto, original_head: head, work_before: s.work },
                onto,
            ),
        ),
    }
}

/// Pause with the plan of a rebase.
pub open spec fn rebase_planned(s: StoreModel, onto_text: Seq<char>) -> (
    StoreModel,
    Result<usize, Fault>,
) {
    match rebase_source(s, onto_text) {
        Err(e) => (s, Err(e)),
        Ok((onto, head, steps)) => (
            StoreModel {
                rebase_state: Some(
                    RebaseStateModel {
                        original_head: head,
                        onto,
                        steps,
                        replay_head: onto,
                        rebase_work: Map::empty(),
                        combined_message: None,
                        conflicted_hash: seq![],
                        work_before: s.work,
                    },
                ),
                ..s
            },
            Ok(steps.len() as usize),
        ),
    }
}

/// Change the plan of a paused rebase.
pub open spec fn plan_edited(s: StoreModel, steps: Seq<StepModel>) -> (StoreModel, Result<(), Fault>) {
    match crate::staging::write_guard(s) {
        Some(e) => (s, Err(e)),
        None => match s.rebase_state {
            None => (s, Err(VersionError::NoRebaseInProgress)),
            Some(st) => (
                StoreModel { rebase_state: Some(RebaseStateModel { steps, ..st }), ..s },
                Ok(()),
            ),
        },
    }
}

/// The message of the commit with a hash, or the hash.
pub open spec fn message_for(s: StoreModel, hash: Seq<char>) -> Seq<char> {
    if crate::model::names_id(hash) && s.commits.dom().contains(crate::digest::hex_bytes(hash)) {
        s.commits[crate::digest::hex_bytes(hash)].message
    } else {
        hash
    }
}

/// Go on with a paused rebase: the resolved contents become the replayed commit,
/// then the steps that are left follow. A rebase that paused with its plan
/// replays the plan.
pub open spec fn rebase_continued(s: StoreModel) -> (StoreModel, Result<Seq<u8>, Fault>) {
    match crate::staging::write_guard(s) {
        Some(e) => (s, Err(e)),
        None => match s.rebase_state {
            None => (s, Err(VersionError::NoRebaseInProgress)),
            Some(st) => if s.conflicts.len() > 0 {
                (s, Err(VersionError::RebaseConflict(st.conflicted_hash)))
            } else {
                let t = StoreModel { rebase_state: None, ..s };
                let plan = RebasePlan {
                    steps: st.steps,
                    onto: st.onto,
                    original_head: st.original_head,
                    work_before: st.work_before,
                };
                if st.conflicted_hash.len() == 0 {
                    rebase_closed(rebase_run(t, plan, st.replay_head))
                } else {
                    let msg = match st.combined_message {
                        Some(m) => m,
                        None => message_for(s, st.conflicted_hash),
                    };
                    let (u, out) = put_replay(
                        StoreModel { work: st.rebase_work, ..t },
                        seq![st.replay_head],
                        msg,
                        st.rebase_work,
                    );
                    match out {
                        Err(e) => (u, Err(e)),
                        Ok(tip) => rebase_closed(
                            rebase_run(with_work(u, st.rebase_work), plan, tip),
                        ),
                    }
                }
            },
        },
    }
}

/// Abandon a paused rebase: branch and working set are those from before it.
pub open spec fn rebase_aborted(s: StoreModel) -> (StoreModel, Result<(), Fault>) {
    match crate::staging::write_guard(s) {
        Some(e) => (s, Err(e)),
        None => match s.rebase_state {
            None => (s, Err(VersionError::NoRebaseInProgress)),
            Some(st) => (
                StoreModel {
                    refs: s.refs.insert((RefNs::Heads, s.head), st.original_head),
                    rebase_state: None,
                    conflicts: seq![],
                    pending_resolve: Map::empty(),
                    ..unstaged_all(with_work(s, st.work_before))
                },
                Ok(()),
            ),
        },
    }
}

// ---------------------------------------------------------------------------
// Constraints of the working set
// ---------------------------------------------------------------------------

/// The working tables from place `i` of a list on, behind those already read.
pub open spec fn work_from(
    work: TablesModel,
    list: Seq<Seq<char>>,
    i: int,
    got: Seq<crate::constraints::TableModel>,
) -> Result<Seq<crate::constraints::TableModel>, Fault>
    decreases list.len() - i,
{
    if i >= list.len() {
        Ok(got)
    } else {
        match crate::table_merge::schema_for(list[i], work[list[i]]) {
            Err(e) => Err(e),
            Ok(schema) => work_from(
                work,
                list,
                i + 1,
                got.push(
                    crate::constraints::TableModel {
                        name: list[i],
                        schema,
                        rows: work[list[i]].rows,
                    },
                ),
            ),
        }
    }
}

/// Run the constraint detectors over the working contents and keep what they
/// find.
pub open spec fn checked(s: StoreModel) -> (StoreModel, Result<usize, Fault>) {
    match work_from(s.work, crate::names::ordered(s.work.dom()), 0, seq![]) {
        Err(e) => (s, Err(e)),
        Ok(tables) => {
            let v = crate::constraints::all_violations(
                tables,
                tables.map_values(|t: crate::constraints::TableModel| t.schema),
            );
            (StoreModel { violations: v, ..s }, Ok(v.len() as usize))
        },
    }
}

// ---------------------------------------------------------------------------
// Code
// ---------------------------------------------------------------------------

/// Lay tables over others.
fn overlay(base: &mut Tables, content: &Tables)
    ensures
        final(base).deep_view() == old(base).deep_view().union_prefer_right(content.deep_view()),
{
    let ghost start = base.deep_view();
    let ghost c = content.deep_view();
    let names = sorted_keys(content);
    let ghost list = names.deep_view();
    let mut i: usize = 0;
    assert(list.take(0) =~= seq![]);
    while i < names.len()
        invariant
            i <= names@.len(),
            c == content.deep_view(),
            list == names.deep_view(),
            list.to_set() == c.dom(),
            forall|t: Seq<char>| #[trigger]
                base.deep_view().dom().contains(t) <==> start.dom().contains(t) || list.take(
                    i as int,
                ).to_set().contains(t),
            forall|t: Seq<char>| #[trigger]
                base.deep_view().dom().contains(t) ==> base.deep_view()[t] == (if list.take(
                    i as int,
                ).to_set().contains(t) {
                    c[t]
                } else {
                    start[t]
                }),
        decreases names.len() - i,
    {
        let ghost n = names@[i as int]@;
        proof {
            assert(list[i as int] == n);
            assert(list.to_set().contains(n));
            crate::names::lemma_take_set(list, i as int);
        }
        match content.get(&names[i]) {
            Some(snap) => {
                base.insert(names[i].clone(), snap.dup());
            },
            None => {},
        }
        i = i + 1;
    }
    assert(list.take(i as int) =~= list);
    assert(base.deep_view() =~= start.union_prefer_right(c));
}

fn picks(ids: &Vec<CommitId>, known: &Vec<CommitId>) -> (r: Vec<RebaseStep>)
    ensures
        r.deep_view() == ids.deep_view().filter(
            |c: Seq<u8>| !known.deep_view().contains(c),
        ).reverse().map_values(|c: Seq<u8>| StepModel::Pick(c)),
{
    let ghost s = ids.deep_view();
    let ghost p = |c: Seq<u8>| !known.deep_view().contains(c);
    let mut kept: Vec<CommitId> = Vec::new();
    let mut i: usize = 0;
    proof {
        reveal(Seq::filter);
        assert(s.take(0).filter(p) =~= seq![]);
        assert(kept.deep_view() =~= seq![]);
    }
    while i < ids.len()
        invariant
            i <= ids@.len(),
            s == ids.deep_view(),
            p == (|c: Seq<u8>| !known.deep_view().contains(c)),
            kept.deep_view() == s.take(i as int).filter(p),
        decreases ids.len() - i,
    {
        proof {
            reveal(Seq::filter);
            assert(s.take(i + 1).drop_last() =~= s.take(i as int));
            assert(s.take(i + 1).last() == ids@[i as int]@);
        }
        let ghost before = kept.deep_view();
        if !has_id(known, &ids[i]) {
            kept.push(ids[i]);
            assert(kept.deep_view() =~= before.push(s[i as int]));
        }
        i = i + 1;
    }
    assert(s.take(i as int) =~= s);
    let ghost k = kept.deep_view();
    let mut out: Vec<RebaseStep> = Vec::new();
    let mut j: usize = kept.len();
    while j > 0
        invariant
            j <= kept@.len(),
            k == kept.deep_view(),
            out@.len() == kept@.len() - j,
            forall|q: int|
                0 <= q < out@.len() ==> (#[trigger] out@[q]).deep_view() == StepModel::Pick(
                    k[k.len() - 1 - q],
                ),
        decreases j,
    {
        j = j - 1;
        assert(k[j as int] == kept@[j as int]@);
        out.push(RebaseStep::Pick(kept[j]));
    }
    assert(out.deep_view() =~= k.reverse().map_values(|c: Seq<u8>| StepModel::Pick(c)));
    out
}

fn without_rows(tables: &Tables) -> (r: Tables)
    ensures
        r.deep_view() == emptied(tables.deep_view()),
{
    let ghost m = tables.deep_view();
    let keys = tables.keys();
    let ghost k = keys.deep_view();
    let mut out: Tables = AssocMap::new();
    let mut i: usize = 0;
    while i < keys.len()
        invariant
            i <= keys@.len(),
            m == tables.deep_view(),
            k == keys.deep_view(),
            k.to_set() == m.dom(),
            forall|x: Seq<char>| #[trigger]
                out.deep_view().dom().contains(x) <==> exists|j: int| 0 <= j < i && k[j] == x,
            forall|x: Seq<char>| #[trigger]
                out.deep_view().dom().contains(x) ==> out.deep_view()[x] == emptied(m)[x],
        decreases keys.len() - i,
    {
        proof {
            assert(k[i as int] == keys@[i as int]@);
            assert(k.to_set().contains(k[i as int]));
        }
        let ghost before = out.deep_view();
        if let Some(t) = tables.get(&keys[i]) {
            let rows: Vec<VcRow> = Vec::new();
            assert(rows.deep_view() =~= seq![]);
            out.insert(
                keys[i].clone(),
                TableSnapshot {
                    columns: t.columns.dup(),
                    pk: t.pk.dup(),
                    rows,
                    schema_sql: t.schema_sql.clone(),
                },
            );
        }
        proof {
            assert forall|x: Seq<char>| #[trigger]
                out.deep_view().dom().contains(x) <==> exists|j: int|
                    0 <= j < i + 1 && k[j] == x by {
                if before.dom().contains(x) {
                    let j = choose|j: int| 0 <= j < i && k[j] == x;
                    assert(k[j] == x);
                }
                if x == k[i as int] {
                    assert(k[i as int] == x);
                }
                if exists|j: int| 0 <= j < i + 1 && k[j] == x {
                    let j = choose|j: int| 0 <= j < i + 1 && k[j] == x;
                    if j < i {
                        assert(before.dom().contains(x));
                    }
                }
            }
        }
        i = i + 1;
    }
    proof {
        assert forall|x: Seq<char>| out.deep_view().dom().contains(x) <==> emptied(
            m,
        ).dom().contains(x) by {
            if m.dom().contains(x) {
                assert(k.to_set().contains(x));
                let j = choose|j: int| 0 <= j < k.len() && k[j] == x;
                assert(k[j] == x);
            }
            if out.deep_view().dom().contains(x) {
                let j = choose|j: int| 0 <= j < i && k[j] == x;
                assert(k.to_set().contains(k[j]));
            }
        }
        assert(out.deep_view() =~= emptied(m));
    }
    out
}

fn one_parent(id: CommitId) -> (r: Vec<CommitId>)
    ensures
        r.deep_view() == seq![id@],
{
    let mut v: Vec<CommitId> = Vec::new();
    v.push(id);
    assert(v.deep_view() =~= seq![id@]);
    v
}

fn merge_parents(ours: CommitId, theirs: CommitId, squash: bool) -> (r: Vec<CommitId>)
    ensures
        r.deep_view() == (if squash {
            seq![ours@]
        } else {
            seq![ours@, theirs@]
        }),
{
    let mut parents = one_parent(ours);
    if !squash {
        let ghost before = parents.deep_view();
        parents.push(theirs);
        assert(parents.deep_view() =~= before.push(theirs@));
        assert(before.push(theirs@) =~= seq![ours@, theirs@]);
    }
    parents
}

fn append_entries(entries: &mut Vec<ConflictEntry>, more: Vec<ConflictEntry>)
    ensures
        final(entries).deep_view() == old(entries).deep_view() + more.deep_view(),
{
    let ghost start = entries.deep_view();
    let ghost m = more.deep_view();
    let mut i: usize = 0;
    assert(start + m.take(0) =~= start);
    while i < more.len()
        invariant
            i <= more@.len(),
            m == more.deep_view(),
            entries.deep_view() == start + m.take(i as int),
        decreases more.len() - i,
    {
        let ghost before = entries.deep_view();
        entries.push(more[i].dup());
        proof {
            assert(m[i as int] == more@[i as int].deep_view());
            assert(entries.deep_view() =~= before.push(m[i as int]));
            assert(entries.deep_view() =~= start + m.take(i + 1));
        }
        i = i + 1;
    }
    assert(m.take(i as int) =~= m);
}

/// What stays the same through a rebase.
struct RebaseCourse {
    steps: Vec<RebaseStep>,
    onto: CommitId,
    original_head: CommitId,
    work_before: Tables,
}

impl DeepView for RebaseCourse {
    type V = RebasePlan;

    closed spec fn deep_view(&self) -> RebasePlan {
        RebasePlan {
            steps: self.steps.deep_view(),
            onto: self.onto@,
            original_head: self.original_head@,
            work_before: self.work_before.deep_view(),
        }
    }
}

/// Where a rebase has got to.
struct RebasePoint {
    tip: CommitId,
    work: Tables,
    message: Option<String>,
    group: Option<CommitId>,
}

impl RebasePoint {
    spec fn run(&self, s: StoreModel) -> RebaseRun {
        RebaseRun {
            s,
            tip: self.tip@,
            work: self.work.deep_view(),
            message: self.message.deep_view(),
            group: self.group.deep_view(),
        }
    }
}

/// The report of conflicts.
fn report_conflicts(entries: &Vec<ConflictEntry>) -> (r: MergeResult)
    ensures
        r.deep_view() == (match crate::table_merge::schema_clash(entries.deep_view()) {
            Some((table, detail)) => ResultModel::SchemaConflict { table, detail },
            None => ResultModel::Conflicts {
                rows: entries.deep_view().len() as usize,
                tables: crate::table_merge::conflicted_tables(entries.deep_view()) as usize,
            },
        }),
{
    assert(entries.deep_view().len() == entries@.len());
    match schema_conflict(entries) {
        Some((table, detail)) => MergeResult::SchemaConflict { table, detail },
        None => MergeResult::Conflicts {
            rows: entries.len(),
            tables: distinct_conflicted_tables(entries),
        },
    }
}

impl VcStore {
    /// The tables at a commit that there may not be.
    fn tables_at(&self, id: Option<CommitId>) -> (r: Tables)
        ensures
            r.deep_view() == snap_at(self.deep_view(), id.deep_view()),
    {
        match id {
            Some(c) => tables_of(&self.snapshots, &c),
            None => AssocMap::new(),
        }
    }

    /// Set the working contents and mark them to be written back.
    fn set_work(&mut self, work: Tables)
        ensures
            final(self).deep_view() == with_work(old(self).deep_view(), work.deep_view()),
    {
        let names = sorted_keys(&work);
        self.work = work;
        self.mark_dirty(&names);
    }

    /// Set the working contents and stage them.
    fn stage_work(&mut self, work: Tables)
        ensures
            final(self).deep_view() == with_staged_work(old(self).deep_view(), work.deep_view()),
    {
        let names = sorted_keys(&work);
        self.set_work(work);
        self.stage_names(&names);
    }

    /// Put a commit with tables among the commits; no reference moves.
    fn put_replay_commit(&mut self, parents: Vec<CommitId>, msg: &str, content: &Tables) -> (r:
        VersionResult<CommitId>)
        ensures
            ({
                let (s, out) = put_replay(
                    old(self).deep_view(),
                    parents.deep_view(),
                    msg@,
                    content.deep_view(),
                );
                final(self).deep_view() == s && crate::model::outcome(r) == out
            }),
    {
        reveal(put_replay);
        let (name, email) = match self.author() {
            Ok(a) => a,
            Err(e) => {
                return Err(e);
            },
        };
        let first = if parents.len() > 0 {
            assert(parents.deep_view()[0] == parents@[0]@);
            Some(parents[0])
        } else {
            None
        };
        let mut tables = self.tables_at(first);
        overlay(&mut tables, content);
        let id = self.put_new_commit(parents, name, email, msg.to_owned());
        self.record_tables(id, &tables);
        Ok(id)
    }

    /// Move the current branch from where it is expected to be.
    fn swap_branch(&mut self, expected: Option<CommitId>, next: CommitId) -> (r: bool)
        ensures
            match swapped(old(self).deep_view(), expected.deep_view(), next@) {
                Some(s) => r && final(self).deep_view() == s,
                None => !r && final(self).deep_view() == old(self).deep_view(),
            },
    {
        let name = RefName::branch(self.head.as_str());
        match self.refs.compare_and_swap(&name, expected, next) {
            Ok(_) => true,
            Err(_) => false,
        }
    }

    /// Commit the working contents and move the current branch to the commit.
    pub fn create_commit_with_work(&mut self, parents: Vec<CommitId>, msg: &str) -> (r:
        VersionResult<CommitId>)
        ensures
            ({
                let (s, out) = commit_work(old(self).deep_view(), parents.deep_view(), msg@);
                final(self).deep_view() == s && crate::model::outcome(r) == out
            }),
    {
        reveal(commit_work);
        let first = if parents.len() > 0 {
            assert(parents.deep_view()[0] == parents@[0]@);
            Some(parents[0])
        } else {
            None
        };
        let work = self.work.dup();
        let id = match self.put_replay_commit(parents, msg, &work) {
            Ok(id) => id,
            Err(e) => {
                return Err(e);
            },
        };
        if !self.swap_branch(first, id) {
            return Err(VersionError::DatabaseLocked);
        }
        self.clear_staging();
        self.conflicts = Vec::new();
        self.violations = Vec::new();
        assert(self.conflicts.deep_view() =~= seq![]);
        assert(self.violations.deep_view() =~= seq![]);
        self.rebase_state = None;
        Ok(id)
    }

    /// The base of a merge.
    fn merge_base_for(&self, ours: CommitId, theirs: CommitId, parent: Option<usize>) -> (r:
        VersionResult<Option<CommitId>>)
        ensures
            crate::model::outcome(r) == base_of(self.deep_view(), ours@, theirs@, parent),
    {
        let commit = self.commits.get_commit(&theirs);
        match (commit, parent) {
            (Some(c), Some(p)) => {
                assert(c.deep_view().parents.len() == c.parents@.len());
                if p >= c.parents.len() {
                    return Err(VersionError::CherryPickMergeNeedsParent(c.parents.len()));
                }
                assert(c.deep_view().parents[p as int] == c.parents@[p as int]@);
                Ok(Some(c.parents[p]))
            },
            _ => merge_base(&self.commits, ours, theirs),
        }
    }

    /// Open a merge with its working contents and conflicts.
    fn record_merge_state(&mut self, merged: MergedTables, theirs: CommitId)
        ensures
            final(self).deep_view() == merge_opened(
                old(self).deep_view(),
                merged.deep_view(),
                theirs@,
            ),
    {
        let work_before = self.work.dup();
        append_entries(&mut self.conflicts, merged.conflicts);
        self.stage_work(merged.work);
        self.merge_state = Some(MergeState { theirs, work_before, stats: merged.stats });
    }

    /// Merge another side into the current branch. A clean merge is committed,
    /// with two parents or, squashed, with one; without a commit it stops at the
    /// working set. Conflicts are recorded and the branch does not move. A chosen
    /// parent of a merge commit is the base in place of the merge base.
    pub fn merge_branch(
        &mut self,
        theirs: &str,
        squash: bool,
        no_commit: bool,
        parent: Option<usize>,
    ) -> (r: VersionResult<MergeResult>)
        ensures
            ({
                let (s, out) = merge_run(
                    old(self).deep_view(),
                    theirs@,
                    squash,
                    no_commit,
                    parent,
                );
                final(self).deep_view() == s && crate::model::outcome(r) == out
            }),
    {
        match self.guard_write() {
            Ok(_) => {},
            Err(e) => {
                return Err(e);
            },
        }
        match self.guard_no_replay_in_progress() {
            Ok(_) => {},
            Err(e) => {
                return Err(e);
            },
        }
        let ours = match self.head_commit() {
            Some(id) => id,
            None => {
                return Err(VersionError::NothingToCommit);
            },
        };
        let theirs_id = match self.resolve(theirs) {
            Ok(id) => id,
            Err(e) => {
                return Err(e);
            },
        };
        let base = match self.merge_base_for(ours, theirs_id, parent) {
            Ok(b) => b,
            Err(e) => {
                return Err(e);
            },
        };
        let base_snap = self.tables_at(base);
        let ours_snap = self.tables_at(Some(ours));
        let theirs_snap = self.tables_at(Some(theirs_id));
        let merged = match merge_snapshots(&base_snap, &ours_snap, &theirs_snap) {
            Ok(m) => m,
            Err(e) => {
                return Err(e);
            },
        };
        self.place_merge(merged, ours, theirs_id, theirs, squash, no_commit)
    }

    /// Commit a merge without conflicts.
    fn commit_merge(
        &mut self,
        work: Tables,
        ours: CommitId,
        theirs_id: CommitId,
        theirs: &str,
        squash: bool,
    ) -> (r: VersionResult<MergeResult>)
        ensures
            ({
                let (s, out) = merge_committed(
                    old(self).deep_view(),
                    work.deep_view(),
                    ours@,
                    theirs_id@,
                    theirs@,
                    squash,
                );
                final(self).deep_view() == s && crate::model::outcome(r) == out
            }),
    {
        let msg = cat5("Merge branch '", theirs, "' into '", self.head.as_str(), "'");
        let parents = merge_parents(ours, theirs_id, squash);
        self.set_work(work);
        match self.create_commit_with_work(parents, msg.as_str()) {
            Ok(id) => {
                self.merge_state = None;
                Ok(MergeResult::Committed(id))
            },
            Err(e) => Err(e),
        }
    }

    /// Do what becomes of a merge of tables.
    fn place_merge(
        &mut self,
        merged: MergedTables,
        ours: CommitId,
        theirs_id: CommitId,
        theirs: &str,
        squash: bool,
        no_commit: bool,
    ) -> (r: VersionResult<MergeResult>)
        ensures
            ({
                let (s, out) = merge_placed(
                    old(self).deep_view(),
                    merged.deep_view(),
                    ours@,
                    theirs_id@,
                    theirs@,
                    squash,
                    no_commit,
                );
                final(self).deep_view() == s && crate::model::outcome(r) == out
            }),
    {
        assert(merged.conflicts.deep_view().len() == merged.conflicts@.len());
        if merged.conflicts.len() > 0 {
            let report = report_conflicts(&merged.conflicts);
            self.record_merge_state(merged, theirs_id);
            Ok(report)
        } else if no_commit {
            self.record_merge_state(merged, theirs_id);
            Ok(MergeResult::Applied)
        } else {
            self.commit_merge(merged.work, ours, theirs_id, theirs, squash)
        }
    }

    /// Abort the open merge: the working set is the one from before it, and the
    /// conflicts are gone.
    pub fn merge_abort(&mut self) -> (r: VersionResult<()>)
        ensures
            ({
                let (s, out) = merge_aborted(old(self).deep_view());
                final(self).deep_view() == s && crate::model::outcome(r) == out
            }),
    {
        match self.guard_write() {
            Ok(_) => {},
            Err(e) => {
                return Err(e);
            },
        }
        let before = match &self.merge_state {
            Some(m) => m.work_before.dup(),
            None => {
                return Err(VersionError::NoMergeInProgress);
            },
        };
        self.merge_state = None;
        self.set_work(before);
        self.conflicts = Vec::new();
        assert(self.conflicts.deep_view() =~= seq![]);
        self.clear_staging();
        Ok(())
    }

    /// The status of the open merge, by table; nothing where none is open.
    pub fn merge_status_rows(&self) -> (r: Vec<MergeStatusRow>)
        ensures
            r.deep_view() == merge_status(self.deep_view()),
    {
        let ghost s = self.deep_view();
        let mut out: Vec<MergeStatusRow> = Vec::new();
        match &self.merge_state {
            None => {
                assert(out.deep_view() =~= seq![]);
                out
            },
            Some(m) => {
                let ghost ms = m.deep_view();
                assert(self.conflicts.deep_view().len() == self.conflicts@.len());
                let clean = self.conflicts.len() == 0;
                let names = sorted_keys(&m.stats);
                let ghost list = names.deep_view();
                let mut i: usize = 0;
                while i < names.len()
                    invariant
                        i <= names@.len(),
                        ms == m.deep_view(),
                        list == names.deep_view(),
                        list.to_set() == ms.stats.dom(),
                        clean == (s.conflicts.len() == 0),
                        out@.len() == i,
                        forall|j: int|
                            0 <= j < i ==> (#[trigger] out@[j]).deep_view() == status_line(
                                s,
                                ms,
                                list[j],
                            ),
                    decreases names.len() - i,
                {
                    assert(list[i as int] == names@[i as int]@);
                    assert(list.to_set().contains(list[i as int]));
                    let state = if clean {
                        "clean"
                    } else {
                        "conflicted"
                    };
                    match m.stats.get(&names[i]) {
                        Some(st) => {
                            out.push(
                                MergeStatusRow {
                                    table: names[i].clone(),
                                    rows_merged: st.rows_merged,
                                    rows_conflicted: st.rows_conflicted,
                                    schema_conflict: if st.schema_conflict {
                                        1
                                    } else {
                                        0
                                    },
                                    state: state.to_owned(),
                                },
                            );
                        },
                        None => {},
                    }
                    i = i + 1;
                }
                assert(out.deep_view() =~= list.map_values(
                    |t: Seq<char>| status_line(s, ms, t),
                ));
                out
            },
        }
    }

    /// A commit to replay: its id, itself and the parent to go by.
    fn find_replay(&self, spec_text: &str, parent: Option<usize>) -> (r: VersionResult<
        (CommitId, Commit, Option<CommitId>),
    >)
        ensures
            match replay_source(self.deep_view(), spec_text@, parent) {
                Ok((id, c, p)) => r matches Ok(x) && x.0@ == id && x.1.deep_view() == c
                    && x.2.deep_view() == p,
                Err(e) => r matches Err(x) && x.deep_view() == e,
            },
    {
        match self.guard_write() {
            Ok(_) => {},
            Err(e) => {
                return Err(e);
            },
        }
        match self.guard_no_replay_in_progress() {
            Ok(_) => {},
            Err(e) => {
                return Err(e);
            },
        }
        let id = match self.resolve(spec_text) {
            Ok(id) => id,
            Err(e) => {
                return Err(e);
            },
        };
        let commit = match self.commits.get_commit(&id) {
            Some(c) => c,
            None => {
                return Err(VersionError::CommitNotFound(id.to_hex()));
            },
        };
        let ghost c = commit.deep_view();
        assert(c.parents.len() == commit.parents@.len());
        let n = commit.parents.len();
        let bad = match parent {
            Some(p) => p >= n,
            None => n > 1,
        };
        if bad {
            return Err(VersionError::CherryPickMergeNeedsParent(n));
        }
        if n == 0 {
            return Ok((id, commit, None));
        }
        let at: usize = match parent {
            Some(p) => p,
            None => 0,
        };
        assert(c.parents[at as int] == commit.parents@[at as int]@);
        let chosen = commit.parents[at];
        Ok((id, commit, Some(chosen)))
    }

    /// Replay a change onto the head and commit it.
    fn replay_change(&mut self, base: &Tables, theirs: &Tables, ours: CommitId, msg: &str) -> (r:
        VersionResult<MergeResult>)
        ensures
            ({
                let (s, out) = replayed(
                    old(self).deep_view(),
                    base.deep_view(),
                    theirs.deep_view(),
                    ours@,
                    msg@,
                );
                final(self).deep_view() == s && crate::model::outcome(r) == out
            }),
    {
        let ours_snap = self.tables_at(Some(ours));
        let merged = match merge_snapshots(base, &ours_snap, theirs) {
            Ok(m) => m,
            Err(e) => {
                return Err(e);
            },
        };
        assert(merged.conflicts.deep_view().len() == merged.conflicts@.len());
        if merged.conflicts.len() > 0 {
            let report = report_conflicts(&merged.conflicts);
            append_entries(&mut self.conflicts, merged.conflicts);
            self.stage_work(merged.work);
            return Ok(report);
        }
        self.set_work(merged.work);
        match self.create_commit_with_work(one_parent(ours), msg) {
            Ok(id) => Ok(MergeResult::Committed(id)),
            Err(e) => Err(e),
        }
    }

    /// Replay a commit onto the head. The first commit of a history replays as
    /// the addition of all its tables; a merge commit needs a chosen parent.
    pub fn cherry_pick(&mut self, spec_text: &str, parent: Option<usize>) -> (r: VersionResult<
        MergeResult,
    >)
        ensures
            ({
                let (s, out) = cherry_picked(old(self).deep_view(), spec_text@, parent);
                final(self).deep_view() == s && crate::model::outcome(r) == out
            }),
    {
        let (id, commit, base) = match self.find_replay(spec_text, parent) {
            Ok(x) => x,
            Err(e) => {
                return Err(e);
            },
        };
        let ours = match self.head_commit() {
            Some(h) => h,
            None => {
                return Err(VersionError::NothingToCommit);
            },
        };
        let base_snap = self.tables_at(base);
        let theirs_snap = self.tables_at(Some(id));
        self.replay_change(&base_snap, &theirs_snap, ours, commit.meta.message.as_str())
    }

    /// Replay the inverse of a commit onto the head. Reverting the first commit of a
    /// history empties its tables; a merge commit needs a chosen parent.
    pub fn revert(&mut self, spec_text: &str, parent: Option<usize>) -> (r: VersionResult<
        MergeResult,
    >)
        ensures
            ({
                let (s, out) = reverted(old(self).deep_view(), spec_text@, parent);
                final(self).deep_view() == s && crate::model::outcome(r) == out
            }),
    {
        let (id, commit, to) = match self.find_replay(spec_text, parent) {
            Ok(x) => x,
            Err(e) => {
                return Err(e);
            },
        };
        let ours = match self.head_commit() {
            Some(h) => h,
            None => {
                return Err(VersionError::NothingToCommit);
            },
        };
        let base_snap = self.tables_at(Some(id));
        let theirs_snap = match to {
            Some(p) => self.tables_at(Some(p)),
            None => without_rows(&base_snap),
        };
        let msg = cat3("Revert \"", commit.meta.message.as_str(), "\"");
        self.replay_change(&base_snap, &theirs_snap, ours, msg.as_str())
    }

    /// The plan of a rebase.
    fn build_plan(&self, head: CommitId, onto: CommitId) -> (r: VersionResult<Vec<RebaseStep>>)
        ensures
            crate::model::outcome(r) == plan_of(self.deep_view(), head@, onto@),
    {
        let chain = match ancestors(&self.commits, head) {
            Ok(c) => c,
            Err(e) => {
                return Err(e);
            },
        };
        let known = match ancestors(&self.commits, onto) {
            Ok(c) => c,
            Err(e) => {
                return Err(e);
            },
        };
        Ok(picks(&chain, &known))
    }

    /// The new base, the head and the plan of a rebase.
    fn find_rebase(&self, onto_text: &str) -> (r: VersionResult<
        (CommitId, CommitId, Vec<RebaseStep>),
    >)
        ensures
            match rebase_source(self.deep_view(), onto_text@) {
                Ok((onto, head, steps)) => r matches Ok(x) && x.0@ == onto && x.1@ == head
                    && x.2.deep_view() == steps,
                Err(e) => r matches Err(x) && x.deep_view() == e,
            },
    {
        match self.guard_write() {
            Ok(_) => {},
            Err(e) => {
                return Err(e);
            },
        }
        match self.guard_no_replay_in_progress() {
            Ok(_) => {},
            Err(e) => {
                return Err(e);
            },
        }
        let onto = match self.resolve(onto_text) {
            Ok(id) => id,
            Err(e) => {
                return Err(e);
            },
        };
        let head = match self.head_commit() {
            Some(h) => h,
            None => {
                return Err(VersionError::NothingToCommit);
            },
        };
        match self.build_plan(head, onto) {
            Ok(steps) => Ok((onto, head, steps)),
            Err(e) => Err(e),
        }
    }

    /// Rebase the current branch onto another commit. A conflict stops it: the
    /// branch stays where it was and the rebase waits for a resolution.
    pub fn rebase_onto(&mut self, onto_text: &str) -> (r: VersionResult<CommitId>)
        ensures
            ({
                let (s, out) = rebased(old(self).deep_view(), onto_text@);
                final(self).deep_view() == s && crate::model::outcome(r) == out
            }),
    {
        let (onto, head, steps) = match self.find_rebase(onto_text) {
            Ok(x) => x,
            Err(e) => {
                return Err(e);
            },
        };
        let before = self.work.dup();
        match self.execute_rebase(steps, onto, head, None, before) {
            Ok(id) => {
                self.rebase_state = None;
                Ok(id)
            },
            Err(e) => Err(e),
        }
    }

    /// Pause with the plan of a rebase, so that it can be edited; the number of
    /// its steps.
    pub fn rebase_plan(&mut self, onto_text: &str) -> (r: VersionResult<usize>)
        ensures
            ({
                let (s, out) = rebase_planned(old(self).deep_view(), onto_text@);
                final(self).deep_view() == s && (match out {
                    Ok(n) => r == Ok::<usize, VersionError>(n),
                    Err(e) => r matches Err(x) && x.deep_view() == e,
                })
            }),
    {
        let (onto, head, steps) = match self.find_rebase(onto_text) {
            Ok(x) => x,
            Err(e) => {
                return Err(e);
            },
        };
        let count = steps.len();
        assert(steps.deep_view().len() == steps@.len());
        let none = String::new();
        assert(none@ =~= seq![]);
        self.rebase_state = Some(
            RebaseState {
                original_head: head,
                onto,
                steps,
                replay_head: onto,
                rebase_work: AssocMap::new(),
                combined_message: None,
                conflicted_hash: none,
                work_before: self.work.dup(),
            },
        );
        Ok(count)
    }

    /// Change the plan of the paused rebase.
    pub fn rebase_edit_plan(&mut self, steps: Vec<RebaseStep>) -> (r: VersionResult<()>)
        ensures
            ({
                let (s, out) = plan_edited(old(self).deep_view(), steps.deep_view());
                final(self).deep_view() == s && crate::model::outcome(r) == out
            }),
    {
        match self.guard_write() {
            Ok(_) => {},
            Err(e) => {
                return Err(e);
            },
        }
        let mut st = match &self.rebase_state {
            Some(st) => st.dup(),
            None => {
                return Err(VersionError::NoRebaseInProgress);
            },
        };
        st.steps = steps;
        self.rebase_state = Some(st);
        Ok(())
    }

    /// The message of the commit with a hash, or the hash.
    fn message_of(&self, hash: &str) -> (r: String)
        ensures
            r@ == message_for(self.deep_view(), hash@),
    {
        match CommitId::from_hex(hash) {
            Ok(id) => match self.commits.get_commit(&id) {
                Some(c) => c.meta.message,
                None => hash.to_owned(),
            },
            Err(_) => hash.to_owned(),
        }
    }

    /// Go on with the paused rebase.
    pub fn rebase_continue(&mut self) -> (r: VersionResult<CommitId>)
        ensures
            ({
                let (s, out) = rebase_continued(old(self).deep_view());
                final(self).deep_view() == s && crate::model::outcome(r) == out
            }),
    {
        match self.guard_write() {
            Ok(_) => {},
            Err(e) => {
                return Err(e);
            },
        }
        let st = match &self.rebase_state {
            Some(st) => st.dup(),
            None => {
                return Err(VersionError::NoRebaseInProgress);
            },
        };
        assert(self.conflicts.deep_view().len() == self.conflicts@.len());
        if self.conflicts.len() > 0 {
            return Err(VersionError::RebaseConflict(st.conflicted_hash));
        }
        let planned = st.conflicted_hash.as_str().is_empty();
        let mut start = st.replay_head;
        if planned {
            self.rebase_state = None;
        } else {
            let msg = match st.combined_message {
                Some(m) => m,
                None => self.message_of(st.conflicted_hash.as_str()),
            };
            self.rebase_state = None;
            self.work = st.rebase_work.dup();
            start = match self.put_replay_commit(
                one_parent(st.replay_head),
                msg.as_str(),
                &st.rebase_work,
            ) {
                Ok(id) => id,
                Err(e) => {
                    return Err(e);
                },
            };
            self.set_work(st.rebase_work);
        }
        match self.execute_rebase(
            st.steps,
            st.onto,
            st.original_head,
            Some(start),
            st.work_before,
        ) {
            Ok(id) => {
                self.rebase_state = None;
                Ok(id)
            },
            Err(e) => Err(e),
        }
    }

    /// Abandon the paused rebase: branch and working set are those from before
    /// it, and conflicts and pending resolutions are gone.
    pub fn rebase_abort(&mut self) -> (r: VersionResult<()>)
        ensures
            ({
                let (s, out) = rebase_aborted(old(self).deep_view());
                final(self).deep_view() == s && crate::model::outcome(r) == out
            }),
    {
        match self.guard_write() {
            Ok(_) => {},
            Err(e) => {
                return Err(e);
            },
        }
        let st = match &self.rebase_state {
            Some(st) => st.dup(),
            None => {
                return Err(VersionError::NoRebaseInProgress);
            },
        };
        self.rebase_state = None;
        let here = self.head_commit();
        if !self.swap_branch(here, st.original_head) {
            return Err(VersionError::DatabaseLocked);
        }
        self.set_work(st.work_before);
        self.conflicts = Vec::new();
        assert(self.conflicts.deep_view() =~= seq![]);
        self.pending_resolve = AssocMap::new();
        self.clear_staging();
        Ok(())
    }

    /// Pause a rebase at a conflict.
    fn pause_rebase(
        &mut self,
        merged: MergedTables,
        course: &RebaseCourse,
        i: usize,
        id: CommitId,
        at: RebasePoint,
    ) -> (e: VersionError)
        requires
            i < course.steps@.len(),
            id@ == step_commit(course.deep_view().steps[i as int]),
        ensures
            rebase_paused(
                at.run(old(self).deep_view()),
                course.deep_view(),
                i as int,
                merged.deep_view(),
            ) == Turn::End(final(self).deep_view(), e.deep_view()),
    {
        let clash = schema_conflict(&merged.conflicts);
        append_entries(&mut self.conflicts, merged.conflicts);
        self.work = course.work_before.dup();
        assert(i < course.steps.len());
        let rest = steps_from(&course.steps, i + 1);
        self.rebase_state = Some(
            RebaseState {
                original_head: course.original_head,
                onto: course.onto,
                steps: rest,
                replay_head: at.tip,
                rebase_work: merged.work,
                combined_message: at.message,
                conflicted_hash: id.to_hex(),
                work_before: course.work_before.dup(),
            },
        );
        match clash {
            Some((table, detail)) => VersionError::SchemaConflict(table, detail),
            None => VersionError::RebaseConflict(id.to_hex()),
        }
    }

    /// Merge a step onto what is replayed.
    fn merge_step(&self, step: &RebaseStep, id: CommitId, commit: &Commit, at: &RebasePoint) -> (r:
        VersionResult<MergedTables>)
        requires
            id@ == step_commit(step.deep_view()),
        ensures
            crate::model::outcome(r) == step_merge(
                at.run(self.deep_view()),
                step.deep_view(),
                commit.deep_view(),
            ),
    {
        let ghost c = commit.deep_view();
        let folding = is_folding(step);
        assert(c.parents.len() == commit.parents@.len());
        let base = if folding {
            at.group
        } else if commit.parents.len() == 0 {
            None
        } else {
            assert(c.parents[0] == commit.parents@[0]@);
            Some(commit.parents[0])
        };
        let base_snap = self.tables_at(base);
        let replay_snap = if folding {
            at.work.dup()
        } else {
            self.tables_at(Some(at.tip))
        };
        let theirs_snap = self.tables_at(Some(id));
        merge_snapshots(&base_snap, &replay_snap, &theirs_snap)
    }

    /// Close the group of a clean step, or leave it open for the step behind it.
    fn close_group(
        &mut self,
        course: &RebaseCourse,
        i: usize,
        id: CommitId,
        commit: Commit,
        work: Tables,
        at: RebasePoint,
    ) -> (r: VersionResult<RebasePoint>)
        requires
            i < course.steps@.len(),
            id@ == step_commit(course.deep_view().steps[i as int]),
        ensures
            group_turn(
                at.run(old(self).deep_view()),
                course.deep_view(),
                i as int,
                commit.deep_view(),
                work.deep_view(),
            ) == (match r {
                Ok(next) => Turn::On(next.run(final(self).deep_view())),
                Err(e) => Turn::End(final(self).deep_view(), e.deep_view()),
            }),
    {
        reveal(group_turn);
        let ghost plan = course.deep_view();
        assert(plan.steps[i as int] == course.steps@[i as int].deep_view());
        assert(i < course.steps.len());
        let message = group_message(&course.steps[i], &commit, at.message);
        let open = if i + 1 < course.steps.len() {
            assert(plan.steps[i + 1] == course.steps@[i + 1].deep_view());
            is_folding(&course.steps[i + 1])
        } else {
            false
        };
        if open {
            return Ok(RebasePoint { tip: at.tip, work, message, group: Some(id) });
        }
        let text = match message {
            Some(m) => m,
            None => commit.meta.message,
        };
        match self.put_replay_commit(one_parent(at.tip), text.as_str(), &work) {
            Ok(tip) => {
                self.work = work.dup();
                Ok(RebasePoint { tip, work, message: None, group: None })
            },
            Err(e) => Err(e),
        }
    }

    /// Do step `i` of a rebase.
    fn replay_step(&mut self, course: &RebaseCourse, i: usize, at: RebasePoint) -> (r:
        VersionResult<RebasePoint>)
        requires
            i < course.steps@.len(),
        ensures
            step_turn(at.run(old(self).deep_view()), course.deep_view(), i as int) == (match r {
                Ok(next) => Turn::On(next.run(final(self).deep_view())),
                Err(e) => Turn::End(final(self).deep_view(), e.deep_view()),
            }),
    {
        reveal(step_turn);
        let step = &course.steps[i];
        assert(course.deep_view().steps[i as int] == step.deep_view());
        let id = match step_id(step) {
            Some(id) => id,
            None => {
                return Ok(at);
            },
        };
        let commit = match self.commits.get_commit(&id) {
            Some(c) => c,
            None => {
                return Err(VersionError::CommitNotFound(id.to_hex()));
            },
        };
        let merged = match self.merge_step(step, id, &commit, &at) {
            Ok(m) => m,
            Err(e) => {
                return Err(e);
            },
        };
        assert(merged.conflicts.deep_view().len() == merged.conflicts@.len());
        if merged.conflicts.len() > 0 {
            Err(self.pause_rebase(merged, course, i, id, at))
        } else {
            self.close_group(course, i, id, commit, merged.work, at)
        }
    }

    /// Finish a rebase: the branch moves to the replayed tip.
    fn finish_rebase(&mut self, original_head: CommitId, tip: CommitId, work: Tables) -> (r:
        VersionResult<CommitId>)
        ensures
            ({
                let (s, out) = (match swapped(
                    old(self).deep_view(),
                    Some(original_head@),
                    tip@,
                ) {
                    None => (
                        old(self).deep_view(),
                        Err::<Seq<u8>, Fault>(VersionError::DatabaseLocked),
                    ),
                    Some(t) => (unstaged_all(with_work(t, work.deep_view())), Ok(tip@)),
                });
                final(self).deep_view() == s && crate::model::outcome(r) == out
            }),
    {
        if !self.swap_branch(Some(original_head), tip) {
            return Err(VersionError::DatabaseLocked);
        }
        self.set_work(work);
        self.clear_staging();
        Ok(tip)
    }

    /// Replay steps onto `onto`, or onto `start_head` where it is given. Each
    /// group of steps is one commit. A conflict leaves the branch and the working
    /// set as they were before and pauses the rebase.
    pub fn execute_rebase(
        &mut self,
        steps: Vec<RebaseStep>,
        onto: CommitId,
        original_head: CommitId,
        start_head: Option<CommitId>,
        work_before: Tables,
    ) -> (r: VersionResult<CommitId>)
        ensures
            ({
                let plan = RebasePlan {
                    steps: steps.deep_view(),
                    onto: onto@,
                    original_head: original_head@,
                    work_before: work_before.deep_view(),
                };
                let start = match start_head {
                    Some(id) => id@,
                    None => onto@,
                };
                let (s, out) = rebase_run(old(self).deep_view(), plan, start);
                final(self).deep_view() == s && crate::model::outcome(r) == out
            }),
    {
        let course = RebaseCourse { steps, onto, original_head, work_before };
        let ghost plan = course.deep_view();
        let ghost first = self.deep_view();
        let tip = match start_head {
            Some(id) => id,
            None => onto,
        };
        let mut at = RebasePoint { tip, work: AssocMap::new(), message: None, group: None };
        let ghost whole = rebase_run(first, plan, tip@);
        let mut i: usize = 0;
        while i < course.steps.len()
            invariant
                first == old(self).deep_view(),
                tip == (match start_head {
                    Some(id) => id,
                    None => onto,
                }),
                plan == (RebasePlan {
                    steps: steps.deep_view(),
                    onto: onto@,
                    original_head: original_head@,
                    work_before: work_before.deep_view(),
                }),
                whole == rebase_run(first, plan, tip@),
                i <= course.steps@.len(),
                plan == course.deep_view(),
                plan.steps.len() == course.steps@.len(),
                rebase_from(at.run(self.deep_view()), plan, i as int) == whole,
            decreases course.steps.len() - i,
        {
            at = match self.replay_step(&course, i, at) {
                Ok(next) => next,
                Err(e) => {
                    return Err(e);
                },
            };
            i = i + 1;
        }
        self.finish_rebase(course.original_head, at.tip, at.work)
    }

    /// The nearest common ancestor of two commits.
    pub fn merge_base_of(&self, a: CommitId, b: CommitId) -> (r: VersionResult<Option<CommitId>>)
        ensures
            crate::model::outcome(r) == crate::commit::merge_base_of(
                self.deep_view().commits,
                a@,
                b@,
            ),
    {
        merge_base(&self.commits, a, b)
    }

    /// Run the constraint detectors over the working contents and keep what they
    /// find for commits to ask about; the number of violations.
    pub fn verify_constraints(&mut self) -> (r: VersionResult<usize>)
        ensures
            ({
                let (s, out) = checked(old(self).deep_view());
                final(self).deep_view() == s && (match out {
                    Ok(n) => r == Ok::<usize, VersionError>(n),
                    Err(e) => r matches Err(x) && x.deep_view() == e,
                })
            }),
    {
        let ghost s = self.deep_view();
        let names = sorted_keys(&self.work);
        let ghost list = names.deep_view();
        let mut tables: Vec<MergedTable> = Vec::new();
        let mut i: usize = 0;
        assert(tables.deep_view() =~= seq![]);
        while i < names.len()
            invariant
                i <= names@.len(),
                s == self.deep_view(),
                s == old(self).deep_view(),
                list == names.deep_view(),
                list == crate::names::ordered(s.work.dom()),
                list.to_set() == s.work.dom(),
                work_from(s.work, list, i as int, tables.deep_view()) == work_from(
                    s.work,
                    list,
                    0,
                    seq![],
                ),
            decreases names.len() - i,
        {
            let ghost before = tables.deep_view();
            assert(list[i as int] == names@[i as int]@);
            assert(list.to_set().contains(list[i as int]));
            match self.work.get(&names[i]) {
                Some(snap) => {
                    let schema = match schema_of(names[i].as_str(), snap) {
                        Ok(x) => x,
                        Err(e) => {
                            return Err(e);
                        },
                    };
                    let t = MergedTable { name: names[i].clone(), schema, rows: snap.rows.dup() };
                    let ghost x = t.deep_view();
                    tables.push(t);
                    assert(tables.deep_view() =~= before.push(x));
                },
                None => {},
            }
            i = i + 1;
        }
        let merged = MergedWork { tables };
        let schemas = schemas_of(&merged.tables);
        let violations = crate::constraints::verify_constraints(&merged, &schemas);
        let count = violations.len();
        assert(violations.deep_view().len() == violations@.len());
        self.violations = violations;
        Ok(count)
    }
}

fn schemas_of(tables: &Vec<MergedTable>) -> (r: Vec<SchemaIR>)
    ensures
        r.deep_view() == tables.deep_view().map_values(
            |t: crate::constraints::TableModel| t.schema,
        ),
{
    let mut out: Vec<SchemaIR> = Vec::new();
    let mut i: usize = 0;
    while i < tables.len()
        invariant
            i <= tables@.len(),
            out@.len() == i,
            forall|j: int|
                0 <= j < i ==> (#[trigger] out@[j]).deep_view() == tables@[j].schema.deep_view(),
        decreases tables.len() - i,
    {
        out.push(tables[i].schema.dup());
        i = i + 1;
    }
    assert(out.deep_view() =~= tables.deep_view().map_values(
        |t: crate::constraints::TableModel| t.schema,
    ));
    out
}

fn steps_from(steps: &Vec<RebaseStep>, i: usize) -> (r: Vec<RebaseStep>)
    requires
        i <= steps@.len(),
    ensures
        r.deep_view() == steps.deep_view().skip(i as int),
{
    let mut out: Vec<RebaseStep> = Vec::new();
    let mut j: usize = i;
    while j < steps.len()
        invariant
            i <= j <= steps@.len(),
            out@.len() == j - i,
            forall|k: int|
                0 <= k < j - i ==> (#[trigger] out@[k]).deep_view() == steps@[i + k].deep_view(),
        decreases steps.len() - j,
    {
        out.push(steps[j].dup());
        j = j + 1;
    }
    assert(out.deep_view() =~= steps.deep_view().skip(i as int));
    out
}

/// The commit of a step that is not dropped.
fn step_id(step: &RebaseStep) -> (r: Option<CommitId>)
    ensures
        match r {
            Some(id) => !(step.deep_view() is Drop) && id@ == step_commit(step.deep_view()),
            None => step.deep_view() is Drop,
        },
{
    match step {
        RebaseStep::Drop(_) => None,
        RebaseStep::Pick(c) => Some(*c),
        RebaseStep::Reword(c, _) => Some(*c),
        RebaseStep::Squash(c) => Some(*c),
        RebaseStep::Fixup(c) => Some(*c),
    }
}

fn is_folding(step: &RebaseStep) -> (r: bool)
    ensures
        r == folds(step.deep_view()),
{
    match step {
        RebaseStep::Squash(_) => true,
        RebaseStep::Fixup(_) => true,
        _ => false,
    }
}

/// The message of a group after a step.
fn group_message(step: &RebaseStep, commit: &Commit, before: Option<String>) -> (r: Option<String>)
    ensures
        r.deep_view() == step_message(step.deep_view(), commit.deep_view(), before.deep_view()),
{
    match step {
        RebaseStep::Reword(_, m) => Some(m.clone()),
        RebaseStep::Pick(_) => Some(commit.meta.message.clone()),
        RebaseStep::Squash(_) => match before {
            Some(m) => Some(cat3(m.as_str(), "\n\n", commit.meta.message.as_str())),
            None => Some(commit.meta.message.clone()),
        },
        _ => before,
    }
}

// ---------------------------------------------------------------------------
// Laws
// ---------------------------------------------------------------------------

/// While a merge, a rebase or a set of conflicts is open, no other merge,
/// cherry-pick, revert or rebase starts, and the refusal changes nothing.
pub proof fn law_second_replay_is_refused(
    s: StoreModel,
    text: Seq<char>,
    squash: bool,
    no_commit: bool,
    parent: Option<usize>,
)
    requires
        s.merge_state is Some || s.rebase_state is Some || s.conflicts.len() > 0,
    ensures
        merge_run(s, text, squash, no_commit, parent).0 == s,
        merge_run(s, text, squash, no_commit, parent).1 is Err,
        cherry_picked(s, text, parent).0 == s,
        cherry_picked(s, text, parent).1 is Err,
        reverted(s, text, parent).0 == s,
        reverted(s, text, parent).1 is Err,
        rebased(s, text).0 == s,
        rebased(s, text).1 is Err,
        rebase_planned(s, text).0 == s,
        rebase_planned(s, text).1 is Err,
{
}

/// A merge that does not commit moves no reference and makes no commit; aborting
/// it gives back the working contents and leaves neither merge nor conflicts.
pub proof fn law_abort_undoes_merge(
    s: StoreModel,
    theirs: Seq<char>,
    squash: bool,
    no_commit: bool,
    parent: Option<usize>,
)
    requires
        merge_run(s, theirs, squash, no_commit, parent).1 matches Ok(r) && !(r is Committed),
    ensures
        ({
            let t = merge_run(s, theirs, squash, no_commit, parent).0;
            let (u, out) = merge_aborted(t);
            &&& t.refs == s.refs && t.commits == s.commits && t.snapshots == s.snapshots
            &&& t.merge_state is Some
            &&& out is Ok
            &&& u.work == s.work
            &&& u.refs == s.refs && u.commits == s.commits && u.snapshots == s.snapshots
            &&& u.merge_state is None && u.conflicts.len() == 0
        }),
{
    reveal(commit_work);
}

/// Aborting a planned rebase, edited or not, gives back the branch and the working
/// contents, and leaves neither rebase nor conflicts.
pub proof fn law_abort_undoes_rebase_plan(
    s: StoreModel,
    onto: Seq<char>,
    steps: Seq<StepModel>,
)
    requires
        rebase_planned(s, onto).1 is Ok,
    ensures
        ({
            let planned = rebase_planned(s, onto).0;
            let (u, out) = rebase_aborted(planned);
            let (v, edited_out) = rebase_aborted(plan_edited(planned, steps).0);
            &&& out is Ok && edited_out is Ok
            &&& u.refs == s.refs && u.work == s.work && u.commits == s.commits
            &&& u.rebase_state is None && u.conflicts.len() == 0
            &&& v == u
        }),
{
    assert(rebase_aborted(rebase_planned(s, onto).0).0.refs =~= s.refs);
}

/// A merge that commits moves the current branch alone, to the new commit, and
/// leaves no merge, rebase, conflict or staged change behind.
pub proof fn law_committed_merge_moves_one_branch(
    s: StoreModel,
    theirs: Seq<char>,
    squash: bool,
    no_commit: bool,
    parent: Option<usize>,
    id: Seq<u8>,
)
    requires
        merge_run(s, theirs, squash, no_commit, parent).1 == Ok::<ResultModel, Fault>(
            MergeResult::Committed(id),
        ),
    ensures
        ({
            let t = merge_run(s, theirs, squash, no_commit, parent).0;
            &&& t.refs == s.refs.insert((RefNs::Heads, s.head), id)
            &&& t.commits.dom() == s.commits.dom().insert(id)
            &&& t.commits[id].parents[0] == crate::staging::head_of(s)->0
            &&& t.commits[id].parents.len() == if squash {
                1nat
            } else {
                2nat
            }
            &&& t.merge_state is None && t.rebase_state is None
            &&& t.conflicts.len() == 0 && t.violations.len() == 0
            &&& t.staged.is_empty() && t.unstaged.is_empty()
        }),
{
    reveal(commit_work);
    reveal(put_replay);
    let t = merge_run(s, theirs, squash, no_commit, parent).0;
    assert(t.commits.dom() =~= s.commits.dom().insert(id));
}

/// Putting a commit changes no reference, no working contents and no state.
proof fn lemma_put_replay(
    s: StoreModel,
    parents: Seq<Seq<u8>>,
    msg: Seq<char>,
    content: TablesModel,
)
    ensures
        ({
            let (t, out) = put_replay(s, parents, msg, content);
            &&& t.refs == s.refs && t.head == s.head && t.conflicts == s.conflicts
            &&& t.rebase_state == s.rebase_state && t.work == s.work
            &&& t.detached == s.detached
            &&& s.commits.dom().subset_of(t.commits.dom())
        }),
{
    reveal(put_replay);
}

/// A step moves no reference; where it goes on, no conflict and no paused rebase
/// comes of it.
proof fn lemma_step_turn(run: RebaseRun, plan: RebasePlan, i: int)
    requires
        0 <= i < plan.steps.len(),
    ensures
        match step_turn(run, plan, i) {
            Turn::On(next) => {
                &&& next.s.refs == run.s.refs && next.s.head == run.s.head
                &&& next.s.detached == run.s.detached
                &&& next.s.conflicts == run.s.conflicts
                &&& next.s.rebase_state == run.s.rebase_state
                &&& run.s.commits.dom().subset_of(next.s.commits.dom())
            },
            Turn::End(s, e) => {
                &&& s.refs == run.s.refs && s.head == run.s.head
                &&& s.detached == run.s.detached
                &&& s.rebase_state != run.s.rebase_state ==> {
                    &&& s.rebase_state matches Some(st)
                    &&& st.work_before == plan.work_before
                    &&& st.original_head == plan.original_head
                    &&& s.work == plan.work_before
                    &&& s.conflicts.len() > 0
                }
                &&& run.s.commits.dom().subset_of(s.commits.dom())
            },
        },
{
    reveal(step_turn);
    reveal(group_turn);
    let step = plan.steps[i];
    let id = step_commit(step);
    if !(step is Drop) && run.s.commits.dom().contains(id) {
        let c = run.s.commits[id];
        if let Ok(m) = step_merge(run, step, c) {
            let message = step_message(step, c, run.message);
            let text = match message {
                Some(t) => t,
                None => c.message,
            };
            lemma_put_replay(run.s, seq![run.tip], text, m.work);
        }
    }
}

proof fn lemma_rebase_from(run: RebaseRun, plan: RebasePlan, i: int)
    requires
        0 <= i <= plan.steps.len(),
    ensures
        ({
            let (s, out) = rebase_from(run, plan, i);
            &&& s.head == run.s.head && s.detached == run.s.detached
            &&& out is Err ==> s.refs == run.s.refs
            &&& out matches Ok(id) ==> s.refs == run.s.refs.insert(
                (RefNs::Heads, run.s.head),
                id,
            )
            &&& out is Ok ==> s.conflicts == run.s.conflicts
            &&& out is Ok ==> s.staged.is_empty() && s.unstaged.is_empty()
            &&& s.rebase_state != run.s.rebase_state ==> {
                &&& out is Err
                &&& s.rebase_state matches Some(st)
                &&& st.work_before == plan.work_before
                &&& st.original_head == plan.original_head
                &&& s.work == plan.work_before
                &&& s.conflicts.len() > 0
            }
            &&& run.s.commits.dom().subset_of(s.commits.dom())
        }),
    decreases plan.steps.len() - i,
{
    if i < plan.steps.len() {
        lemma_step_turn(run, plan, i);
        if let Turn::On(next) = step_turn(run, plan, i) {
            lemma_rebase_from(next, plan, i + 1);
        }
    }
}

/// A rebase that fails moves no reference. Where a conflict stopped it, the
/// working contents are those from before, and aborting gives back the branch
/// and leaves neither rebase nor conflicts.
pub proof fn law_failed_rebase_keeps_branch(s: StoreModel, onto: Seq<char>)
    requires
        rebased(s, onto).1 is Err,
    ensures
        ({
            let t = rebased(s, onto).0;
            &&& t.refs == s.refs
            &&& s.commits.dom().subset_of(t.commits.dom())
            &&& s.rebase_state is None && t.rebase_state is Some ==> {
                let (u, out) = rebase_aborted(t);
                &&& t.work == s.work && t.conflicts.len() > 0
                &&& out is Ok
                &&& u.work == s.work && u.refs == s.refs
                &&& u.rebase_state is None && u.conflicts.len() == 0
            }
        }),
{
    if let Ok((at, head, steps)) = rebase_source(s, onto) {
        let plan = RebasePlan { steps, onto: at, original_head: head, work_before: s.work };
        let run = RebaseRun { s, tip: at, work: Map::empty(), message: None, group: None };
        lemma_rebase_from(run, plan, 0);
        let t = rebased(s, onto).0;
        if t.rebase_state is Some {
            assert(t.refs.insert((RefNs::Heads, s.head), head) =~= s.refs);
        }
    }
}

/// A rebase that succeeds moves the current branch alone, to the commit it
/// returns, loses no commit and leaves neither rebase nor staged change.
pub proof fn law_rebase_moves_one_branch(s: StoreModel, onto: Seq<char>, id: Seq<u8>)
    requires
        rebased(s, onto).1 == Ok::<Seq<u8>, Fault>(id),
    ensures
        ({
            let t = rebased(s, onto).0;
            &&& t.refs == s.refs.insert((RefNs::Heads, s.head), id)
            &&& s.commits.dom().subset_of(t.commits.dom())
            &&& t.rebase_state is None && t.conflicts == s.conflicts
            &&& t.staged.is_empty() && t.unstaged.is_empty()
        }),
{
    if let Ok((at, head, steps)) = rebase_source(s, onto) {
        let plan = RebasePlan { steps, onto: at, original_head: head, work_before: s.work };
        let run = RebaseRun { s, tip: at, work: Map::empty(), message: None, group: None };
        lemma_rebase_from(run, plan, 0);
    }
}

/// A paused rebase with unresolved conflicts does not go on, and trying changes
/// nothing.
pub proof fn law_unresolved_rebase_waits(s: StoreModel)
    requires
        s.conflicts.len() > 0,
    ensures
        rebase_continued(s).0 == s,
        rebase_continued(s).1 is Err,
{
}

/// Dropped steps are not replayed: a plan of dropped steps alone makes no commit
/// and leaves the branch at its start.
pub proof fn law_dropped_steps_do_nothing(s: StoreModel, plan: RebasePlan, start: Seq<u8>)
    requires
        forall|i: int| 0 <= i < plan.steps.len() ==> #[trigger] plan.steps[i] is Drop,
    ensures
        rebase_run(s, plan, start).0.commits == s.commits,
        rebase_run(s, plan, start).1 matches Ok(id) ==> id == start,
{
    lemma_all_dropped(
        RebaseRun { s, tip: start, work: Map::empty(), message: None, group: None },
        plan,
        0,
    );
}

proof fn lemma_all_dropped(run: RebaseRun, plan: RebasePlan, i: int)
    requires
        0 <= i <= plan.steps.len(),
        forall|k: int| 0 <= k < plan.steps.len() ==> #[trigger] plan.steps[k] is Drop,
    ensures
        rebase_from(run, plan, i) == rebase_done(run, plan),
    decreases plan.steps.len() - i,
{
    if i < plan.steps.len() {
        reveal(step_turn);
        assert(plan.steps[i] is Drop);
        lemma_all_dropped(run, plan, i + 1);
    }
}

/// What a filter keeps was there.
pub proof fn lemma_filter_keeps<A>(s: Seq<A>, p: spec_fn(A) -> bool, i: int)
    requires
        0 <= i < s.filter(p).len(),
    ensures
        s.contains(s.filter(p)[i]),
    decreases s.len(),
{
    reveal(Seq::filter);
    let d = s.drop_last();
    if i < d.filter(p).len() {
        lemma_filter_keeps(d, p, i);
        let k = choose|k: int| 0 <= k < d.len() && d[k] == d.filter(p)[i];
        assert(s[k] == s.filter(p)[i]);
    } else {
        assert(s[s.len() - 1] == s.filter(p)[i]);
    }
}

/// The plan of a rebase picks the commits of the head's chain that the new base
/// does not have, and no others.
pub proof fn law_plan_picks_missing_commits(
    s: StoreModel,
    head: Seq<u8>,
    onto: Seq<u8>,
    chain: Seq<Seq<u8>>,
    known: Seq<Seq<u8>>,
    steps: Seq<StepModel>,
    c: Seq<u8>,
)
    requires
        crate::commit::ancestors_of(s.commits, head) == Ok::<Seq<Seq<u8>>, Fault>(chain),
        crate::commit::ancestors_of(s.commits, onto) == Ok::<Seq<Seq<u8>>, Fault>(known),
        plan_of(s, head, onto) == Ok::<Seq<StepModel>, Fault>(steps),
    ensures
        steps.contains(StepModel::Pick(c)) <==> chain.contains(c) && !known.contains(c),
        forall|i: int| 0 <= i < steps.len() ==> #[trigger] steps[i] is Pick,
{
    broadcast use vstd::seq_lib::group_filter_ensures;

    let p = |x: Seq<u8>| !known.contains(x);
    let kept = chain.filter(p);
    let back = kept.reverse();
    if steps.contains(StepModel::Pick(c)) {
        let i = choose|i: int| 0 <= i < steps.len() && steps[i] == StepModel::Pick(c);
        assert(back[i] == c);
        assert(kept[kept.len() - 1 - i] == c);
        assert(p(kept[kept.len() - 1 - i]));
        lemma_filter_keeps(chain, p, kept.len() - 1 - i);
    }
    if chain.contains(c) && !known.contains(c) {
        let k = choose|k: int| 0 <= k < chain.len() && chain[k] == c;
        assert(p(chain[k]));
        assert(kept.contains(chain[k]));
        let i = choose|i: int| 0 <= i < kept.len() && kept[i] == c;
        assert(steps[kept.len() - 1 - i] == StepModel::Pick(c));
    }
}

/// Reverting the first commit while nothing has changed since empties its tables,
/// without conflicts.
pub proof fn law_reverted_first_commit_is_empty(tables: TablesModel, m: MergedModel)
    requires
        tables.dom().finite(),
        crate::table_merge::merge_tables(tables, tables, emptied(tables)) == Ok::<
            MergedModel,
            Fault,
        >(m),
    ensures
        m.conflicts.len() == 0,
        m.work.dom() == tables.dom(),
        forall|t: Seq<char>| #[trigger]
            m.work.dom().contains(t) ==> m.work[t].rows == Seq::<RowModel>::empty(),
{
    let side = emptied(tables);
    assert(side.dom() =~= tables.dom());
    crate::table_merge::law_unmoved_tables_give_way(tables, side, m);
    assert forall|t: Seq<char>| #[trigger] m.work.dom().contains(t) implies m.work[t].rows
        == Seq::<RowModel>::empty() by {
        assert(side.dom().contains(t));
        crate::table_merge::lemma_settled_empty(side[t], m.work[t]);
    }
}

/// A commit of a replay holds the given tables.
proof fn lemma_replayed_tables(
    s: StoreModel,
    parents: Seq<Seq<u8>>,
    msg: Seq<char>,
    id: Seq<u8>,
    table: Seq<char>,
)
    requires
        commit_work(s, parents, msg).1 == Ok::<Seq<u8>, Fault>(id),
        parents.len() > 0,
        snap_at(s, Some(parents[0])).dom().finite(),
        s.work.dom().finite(),
        s.work.dom().contains(table),
    ensures
        ({
            let now = crate::remote_wire::tables_at(commit_work(s, parents, msg).0.snapshots, id);
            now.dom().contains(table) && now[table] == s.work[table]
        }),
{
    reveal(commit_work);
    reveal(put_replay);
    let content = snap_at(s, Some(parents[0])).union_prefer_right(s.work);
    assert(content.dom() =~= snap_at(s, Some(parents[0])).dom().union(s.work.dom()));
    crate::names::law_ordered(content.dom());
    let list = crate::names::ordered(content.dom());
    assert(list.skip(0) =~= list);
    assert(list.to_set().contains(table));
    crate::staging::lemma_record_list(
        s.snapshots,
        s.snap_index,
        id,
        content,
        list,
        0,
        table,
        seq![],
    );
}

/// Reverting the commit at the head, where it made no table, never conflicts: each table
/// has at the new commit the rows that it had at the parent; with a primary key one for
/// each key, in the order of the keys.
pub proof fn law_revert_restores_the_parent(
    s: StoreModel,
    text: Seq<char>,
    parent: Option<usize>,
    id: Seq<u8>,
    p: Seq<u8>,
    table: Seq<char>,
)
    requires
        crate::staging::head_of(s) == Some(id),
        replay_source(s, text, parent) matches Ok(found) && found.0 == id && found.2 == Some(p),
        snap_at(s, Some(id)).dom().finite(),
        snap_at(s, Some(p)).dom().finite(),
        snap_at(s, Some(id)).dom().subset_of(snap_at(s, Some(p)).dom()),
        snap_at(s, Some(p)).dom().contains(table),
    ensures
        ({
            let (t, out) = reverted(s, text, parent);
            out matches Ok(r) ==> {
                &&& r matches MergeResult::Committed(new) && {
                    let now = crate::remote_wire::tables_at(t.snapshots, new);
                    &&& now.dom().contains(table)
                    &&& now[table].rows == crate::table_merge::settled_rows(
                        snap_at(s, Some(p))[table],
                        now[table],
                    )
                }
            }
        }),
{
    let base = snap_at(s, Some(id));
    let side = snap_at(s, Some(p));
    if let Ok(m) = crate::table_merge::merge_tables(base, base, side) {
        crate::table_merge::law_unmoved_tables_give_way(base, side, m);
        let found = replay_source(s, text, parent)->Ok_0;
        let msg = "Revert \""@ + found.1.message + "\""@;
        let w = with_work(s, m.work);
        if let Ok(new) = commit_work(w, seq![id], msg).1 {
            lemma_replayed_tables(w, seq![id], msg, new, table);
        }
    }
}

/// A merge where one side has not moved off the base, and the other kept every table,
/// never conflicts. When it commits, each table of the side that moved has its rows at
/// the new commit; with a primary key one for each key, in the order of the keys.
pub proof fn law_merge_takes_the_side_that_moved(
    s: StoreModel,
    name: Seq<char>,
    squash: bool,
    no_commit: bool,
    parent: Option<usize>,
    ours: Seq<u8>,
    theirs: Seq<u8>,
    base: Option<Seq<u8>>,
    side: TablesModel,
    table: Seq<char>,
)
    requires
        crate::staging::head_of(s) == Some(ours),
        crate::staging::named(s, name) == Ok::<Seq<u8>, Fault>(theirs),
        base_of(s, ours, theirs, parent) == Ok::<Option<Seq<u8>>, Fault>(base),
        (snap_at(s, Some(ours)) == snap_at(s, base) && side == snap_at(s, Some(theirs))) || (snap_at(
            s,
            Some(theirs),
        ) == snap_at(s, base) && side == snap_at(s, Some(ours))),
        snap_at(s, base).dom().finite(),
        snap_at(s, Some(ours)).dom().finite(),
        side.dom().finite(),
        snap_at(s, base).dom().subset_of(side.dom()),
        side.dom().contains(table),
    ensures
        ({
            let (t, out) = merge_run(s, name, squash, no_commit, parent);
            out matches Ok(r) ==> {
                &&& r is Committed || r is Applied
                &&& r matches MergeResult::Committed(new) ==> {
                    let now = crate::remote_wire::tables_at(t.snapshots, new);
                    &&& now.dom().contains(table)
                    &&& now[table].rows == crate::table_merge::settled_rows(
                        side[table],
                        now[table],
                    )
                }
            }
        }),
{
    let b = snap_at(s, base);
    if let Ok(m) = crate::table_merge::merge_tables(
        b,
        snap_at(s, Some(ours)),
        snap_at(s, Some(theirs)),
    ) {
        crate::table_merge::law_unmoved_tables_give_way(b, side, m);
        let msg = "Merge branch '"@ + name + "' into '"@ + s.head + "'"@;
        let parents = if squash {
            seq![ours]
        } else {
            seq![ours, theirs]
        };
        let w = with_work(s, m.work);
        if let Ok(new) = commit_work(w, parents, msg).1 {
            lemma_replayed_tables(w, parents, msg, new, table);
        }
    }
}

// ---------------------------------------------------------------------------
// What drivers do to the rows
// ---------------------------------------------------------------------------

/// The tables that a driver leaves: those of the commit that it made, or else those to
/// work on.
pub open spec fn left_tables(after: StoreModel, r: ResultModel) -> TablesModel {
    match r {
        MergeResult::Committed(new) => crate::remote_wire::tables_at(after.snapshots, new),
        _ => after.work,
    }
}

/// A driver that made a commit moved the branch to it alone; one that made none moved no
/// branch and made no commit.
pub open spec fn branch_follows(
    s: StoreModel,
    after: StoreModel,
    r: ResultModel,
    parents: Seq<Seq<u8>>,
    msg: Seq<char>,
) -> bool {
    match r {
        MergeResult::Committed(new) => {
            &&& after.refs == s.refs.insert((RefNs::Heads, s.head), new)
            &&& after.commits.dom().contains(new)
            &&& after.commits[new].parents == parents
            &&& after.commits[new].message == msg
            &&& forall|c: Seq<u8>|
                c != new ==> (#[trigger] after.commits.dom().contains(c) <==> s.commits.dom().contains(
                    c,
                ))
            &&& forall|c: Seq<u8>|
                c != new && #[trigger] s.commits.dom().contains(c) ==> after.commits[c]
                    == s.commits[c]
        },
        _ => after.refs == s.refs && after.commits == s.commits && after.snapshots == s.snapshots,
    }
}

proof fn lemma_commit_follows(
    s: StoreModel,
    work: TablesModel,
    parents: Seq<Seq<u8>>,
    msg: Seq<char>,
    id: Seq<u8>,
)
    requires
        commit_work(with_work(s, work), parents, msg).1 == Ok::<Seq<u8>, Fault>(id),
    ensures
        branch_follows(
            s,
            commit_work(with_work(s, work), parents, msg).0,
            MergeResult::Committed(id),
            parents,
            msg,
        ),
        commit_work(with_work(s, work), parents, msg).0.conflicts.len() == 0,
{
    reveal(commit_work);
    reveal(put_replay);
}

/// The tables that a merge of the head with other tables leaves, committed or not.
proof fn lemma_left_tables(
    s: StoreModel,
    base: TablesModel,
    theirs: TablesModel,
    ours: Seq<u8>,
    parents: Seq<Seq<u8>>,
    msg: Seq<char>,
    m: MergedModel,
    table: Seq<char>,
)
    requires
        parents.len() > 0 && parents[0] == ours,
        snap_at(s, Some(ours)).dom().finite(),
        crate::table_merge::merge_tables(base, snap_at(s, Some(ours)), theirs) == Ok::<
            MergedModel,
            Fault,
        >(m),
        m.work.dom().contains(table),
    ensures
        commit_work(with_work(s, m.work), parents, msg).1 matches Ok(new) ==> {
            let now = crate::remote_wire::tables_at(
                commit_work(with_work(s, m.work), parents, msg).0.snapshots,
                new,
            );
            now.dom().contains(table) && now[table] == m.work[table]
        },
{
    crate::table_merge::lemma_merged_finite(base, snap_at(s, Some(ours)), theirs);
    let w = with_work(s, m.work);
    if let Ok(new) = commit_work(w, parents, msg).1 {
        lemma_replayed_tables(w, parents, msg, new, table);
        lemma_commit_follows(s, m.work, parents, msg, new);
    }
}

/// A replay of a change onto the head leaves what a merge of the change leaves.
proof fn lemma_replayed_left(
    s: StoreModel,
    base: TablesModel,
    theirs: TablesModel,
    ours: Seq<u8>,
    msg: Seq<char>,
    r: ResultModel,
    table: Seq<char>,
) -> (m: MergedModel)
    requires
        base.dom().finite() && theirs.dom().finite() && snap_at(s, Some(ours)).dom().finite(),
        s.conflicts.len() == 0,
        replayed(s, base, theirs, ours, msg).1 == Ok::<ResultModel, Fault>(r),
        snap_at(s, Some(ours)).dom().contains(table) || theirs.dom().contains(table),
        crate::table_merge::schemas_agree(replayed(s, base, theirs, ours, msg).0.conflicts, table),
    ensures
        ({
            let after = replayed(s, base, theirs, ours, msg).0;
            &&& crate::table_merge::merge_tables(base, snap_at(s, Some(ours)), theirs) == Ok::<
                MergedModel,
                Fault,
            >(m)
            &&& after.conflicts == m.conflicts
            &&& left_tables(after, r).dom().contains(table)
            &&& left_tables(after, r)[table] == m.work[table]
            &&& branch_follows(s, after, r, seq![ours], msg)
        }),
{
    let head = snap_at(s, Some(ours));
    let m = crate::table_merge::merge_tables(base, head, theirs)->Ok_0;
    let after = replayed(s, base, theirs, ours, msg).0;
    if m.conflicts.len() > 0 {
        assert(after.conflicts =~= m.conflicts);
        crate::table_merge::lemma_merged_has(base, head, theirs, m, table);
    } else {
        let id = commit_work(with_work(s, m.work), seq![ours], msg).1->Ok_0;
        lemma_commit_follows(s, m.work, seq![ours], msg, id);
        assert(after.conflicts =~= m.conflicts);
        crate::table_merge::lemma_merged_has(base, head, theirs, m, table);
        lemma_left_tables(s, base, theirs, ours, seq![ours], msg, m, table);
    }
    m
}

/// The parent that a commit is replayed against: the chosen one, or the first; none of a
/// first commit.
pub open spec fn replay_parent(c: CommitModel, parent: Option<usize>) -> Option<Seq<u8>> {
    if c.parents.len() == 0 {
        None
    } else {
        Some(
            c.parents[match parent {
                Some(k) => k as int,
                None => 0,
            }],
        )
    }
}

/// A cherry-pick replays one change: what a commit changed against its parent is merged
/// into the head, row by row, so that what the commit left alone stays as the head has it.
/// Without conflicts it is a commit on top of the head, with the message of the picked one.
pub proof fn law_cherry_pick_replays_one_change(
    s: StoreModel,
    text: Seq<char>,
    parent: Option<usize>,
    id: Seq<u8>,
    head: Seq<u8>,
    r: ResultModel,
    table: Seq<char>,
    key: RowModel,
    before: Option<RowModel>,
    ours: Option<RowModel>,
    picked: Option<RowModel>,
)
    requires
        cherry_picked(s, text, parent).1 == Ok::<ResultModel, Fault>(r),
        crate::staging::named(s, text) == Ok::<Seq<u8>, Fault>(id),
        crate::staging::head_of(s) == Some(head),
        ({
            let after = cherry_picked(s, text, parent).0;
            let was = snap_at(s, replay_parent(s.commits[id], parent));
            let here = snap_at(s, Some(head));
            let there = snap_at(s, Some(id));
            &&& was.dom().finite() && here.dom().finite() && there.dom().finite()
            &&& here.dom().contains(table) || there.dom().contains(table)
            &&& crate::table_merge::schemas_agree(after.conflicts, table)
            &&& crate::table_merge::are_sides(
                left_tables(after, r)[table],
                crate::merge::lookup(was, table),
                crate::merge::lookup(here, table),
                crate::merge::lookup(there, table),
                key,
                before,
                ours,
                picked,
            )
        }),
    ensures
        ({
            let after = cherry_picked(s, text, parent).0;
            &&& left_tables(after, r).dom().contains(table)
            &&& crate::table_merge::is_merged_row(
                left_tables(after, r)[table],
                after.conflicts,
                table,
                key,
                before,
                ours,
                picked,
            )
            &&& branch_follows(s, after, r, seq![head], s.commits[id].message)
            &&& r is Committed <==> after.conflicts.len() == 0
        }),
{
    let was = snap_at(s, replay_parent(s.commits[id], parent));
    let there = snap_at(s, Some(id));
    let msg = s.commits[id].message;
    let m = lemma_replayed_left(s, was, there, head, msg, r, table);
    crate::table_merge::law_merge_goes_row_by_row(
        was,
        snap_at(s, Some(head)),
        there,
        m,
        table,
        key,
        before,
        ours,
        picked,
    );
}

/// The same for a table without a primary key: where the commit left the rows as they
/// were, the head's rows stay, and where the head has them as the parent had, they become
/// those of the commit.
pub proof fn law_cherry_pick_without_a_key(
    s: StoreModel,
    text: Seq<char>,
    parent: Option<usize>,
    id: Seq<u8>,
    head: Seq<u8>,
    r: ResultModel,
    table: Seq<char>,
)
    requires
        cherry_picked(s, text, parent).1 == Ok::<ResultModel, Fault>(r),
        crate::staging::named(s, text) == Ok::<Seq<u8>, Fault>(id),
        crate::staging::head_of(s) == Some(head),
        ({
            let after = cherry_picked(s, text, parent).0;
            let was = snap_at(s, replay_parent(s.commits[id], parent));
            let here = snap_at(s, Some(head));
            let there = snap_at(s, Some(id));
            &&& was.dom().finite() && here.dom().finite() && there.dom().finite()
            &&& here.dom().contains(table) || there.dom().contains(table)
            &&& crate::table_merge::schemas_agree(after.conflicts, table)
            &&& left_tables(after, r)[table].pk.len() == 0
        }),
    ensures
        ({
            let after = cherry_picked(s, text, parent).0;
            &&& left_tables(after, r).dom().contains(table)
            &&& crate::table_merge::are_merged_rows(
                left_tables(after, r)[table],
                after.conflicts,
                table,
                crate::merge::lookup(
                    snap_at(s, replay_parent(s.commits[id], parent)),
                    table,
                ),
                crate::merge::lookup(snap_at(s, Some(head)), table),
                crate::merge::lookup(snap_at(s, Some(id)), table),
            )
        }),
{
    let was = snap_at(s, replay_parent(s.commits[id], parent));
    let there = snap_at(s, Some(id));
    let m = lemma_replayed_left(s, was, there, head, s.commits[id].message, r, table);
    crate::table_merge::law_merge_without_a_key_takes_the_moved_side(
        was,
        snap_at(s, Some(head)),
        there,
        m,
        table,
    );
}

/// The tables that a revert goes back to: those of the parent; before a first commit its
/// tables were there without rows.
pub open spec fn reverted_to(s: StoreModel, id: Seq<u8>, parent: Option<usize>, table: Seq<char>) -> Option<
    SnapModel,
> {
    match replay_parent(s.commits[id], parent) {
        Some(p) => crate::merge::lookup(snap_at(s, Some(p)), table),
        None => match crate::merge::lookup(snap_at(s, Some(id)), table) {
            Some(t) => Some(SnapModel { rows: seq![], ..t }),
            None => None,
        },
    }
}

/// A revert undoes one change: the way back from a commit to its parent is merged into the
/// head, row by row, so that what the commit left alone stays as the head has it, and what
/// nobody changed since is as it was before the commit. Without conflicts it is a commit on
/// top of the head.
pub proof fn law_revert_undoes_one_change(
    s: StoreModel,
    text: Seq<char>,
    parent: Option<usize>,
    id: Seq<u8>,
    head: Seq<u8>,
    r: ResultModel,
    table: Seq<char>,
    key: RowModel,
    before: Option<RowModel>,
    ours: Option<RowModel>,
    undone: Option<RowModel>,
)
    requires
        reverted(s, text, parent).1 == Ok::<ResultModel, Fault>(r),
        crate::staging::named(s, text) == Ok::<Seq<u8>, Fault>(id),
        crate::staging::head_of(s) == Some(head),
        ({
            let after = reverted(s, text, parent).0;
            let here = snap_at(s, Some(head));
            let there = snap_at(s, Some(id));
            &&& snap_at(s, replay_parent(s.commits[id], parent)).dom().finite()
            &&& here.dom().finite() && there.dom().finite()
            &&& here.dom().contains(table) || reverted_to(s, id, parent, table) is Some
            &&& crate::table_merge::schemas_agree(after.conflicts, table)
            &&& crate::table_merge::are_sides(
                left_tables(after, r)[table],
                crate::merge::lookup(there, table),
                crate::merge::lookup(here, table),
                reverted_to(s, id, parent, table),
                key,
                undone,
                ours,
                before,
            )
        }),
    ensures
        ({
            let after = reverted(s, text, parent).0;
            &&& left_tables(after, r).dom().contains(table)
            &&& crate::table_merge::is_merged_row(
                left_tables(after, r)[table],
                after.conflicts,
                table,
                key,
                undone,
                ours,
                before,
            )
            &&& branch_follows(
                s,
                after,
                r,
                seq![head],
                "Revert \""@ + s.commits[id].message + "\""@,
            )
            &&& r is Committed <==> after.conflicts.len() == 0
        }),
{
    let there = snap_at(s, Some(id));
    let to = tables_before(s, id, replay_parent(s.commits[id], parent));
    let msg = "Revert \""@ + s.commits[id].message + "\""@;
    if replay_parent(s.commits[id], parent) is None {
        assert(to.dom() =~= there.dom());
    }
    assert(crate::merge::lookup(to, table) == reverted_to(s, id, parent, table));
    let m = lemma_replayed_left(s, there, to, head, msg, r, table);
    crate::table_merge::law_merge_goes_row_by_row(
        there,
        snap_at(s, Some(head)),
        to,
        m,
        table,
        key,
        undone,
        ours,
        before,
    );
}

/// A merge of another commit leaves what a merge of the tables leaves.
proof fn lemma_merge_left(
    s: StoreModel,
    name: Seq<char>,
    squash: bool,
    no_commit: bool,
    parent: Option<usize>,
    ours: Seq<u8>,
    theirs: Seq<u8>,
    base: Option<Seq<u8>>,
    r: ResultModel,
    table: Seq<char>,
) -> (m: MergedModel)
    requires
        merge_run(s, name, squash, no_commit, parent).1 == Ok::<ResultModel, Fault>(r),
        crate::staging::head_of(s) == Some(ours),
        crate::staging::named(s, name) == Ok::<Seq<u8>, Fault>(theirs),
        base_of(s, ours, theirs, parent) == Ok::<Option<Seq<u8>>, Fault>(base),
        snap_at(s, base).dom().finite(),
        snap_at(s, Some(ours)).dom().finite(),
        snap_at(s, Some(theirs)).dom().finite(),
        snap_at(s, Some(ours)).dom().contains(table) || snap_at(s, Some(theirs)).dom().contains(
            table,
        ),
        crate::table_merge::schemas_agree(
            merge_run(s, name, squash, no_commit, parent).0.conflicts,
            table,
        ),
    ensures
        ({
            let after = merge_run(s, name, squash, no_commit, parent).0;
            let parents = if squash {
                seq![ours]
            } else {
                seq![ours, theirs]
            };
            &&& crate::table_merge::merge_tables(
                snap_at(s, base),
                snap_at(s, Some(ours)),
                snap_at(s, Some(theirs)),
            ) == Ok::<MergedModel, Fault>(m)
            &&& after.conflicts == m.conflicts
            &&& left_tables(after, r).dom().contains(table)
            &&& left_tables(after, r)[table] == m.work[table]
            &&& branch_follows(
                s,
                after,
                r,
                parents,
                "Merge branch '"@ + name + "' into '"@ + s.head + "'"@,
            )
        }),
{
    let b = snap_at(s, base);
    let o = snap_at(s, Some(ours));
    let t = snap_at(s, Some(theirs));
    let after = merge_run(s, name, squash, no_commit, parent).0;
    let m = crate::table_merge::merge_tables(b, o, t)->Ok_0;
    let msg = "Merge branch '"@ + name + "' into '"@ + s.head + "'"@;
    let parents = if squash {
        seq![ours]
    } else {
        seq![ours, theirs]
    };
    if m.conflicts.len() > 0 || no_commit {
        assert(after.conflicts =~= m.conflicts);
        crate::table_merge::lemma_merged_has(b, o, t, m, table);
    } else {
        let id = commit_work(with_work(s, m.work), parents, msg).1->Ok_0;
        lemma_commit_follows(s, m.work, parents, msg, id);
        assert(after.conflicts =~= m.conflicts);
        crate::table_merge::lemma_merged_has(b, o, t, m, table);
        lemma_left_tables(s, b, t, ours, parents, msg, m, table);
    }
    m
}

/// The commit that a merge goes back to: the chosen parent of the other side, or the
/// nearest commit that both first-parent histories share.
pub open spec fn is_merge_base(
    s: StoreModel,
    ours: Seq<u8>,
    theirs: Seq<u8>,
    parent: Option<usize>,
    base: Option<Seq<u8>>,
) -> bool {
    match parent {
        Some(k) => s.commits.dom().contains(theirs) && k < s.commits[theirs].parents.len() && base
            == Some(s.commits[theirs].parents[k as int]),
        None => crate::commit::merge_base_of(s.commits, ours, theirs) == Ok::<
            Option<Seq<u8>>,
            Fault,
        >(base),
    }
}

/// A merge brings the changes of both sides since their base together, row by row. Without
/// conflicts, unless it is not to commit, it is a commit with both sides as parents, or,
/// squashed, with ours alone.
pub proof fn law_merge_brings_both_sides_together(
    s: StoreModel,
    name: Seq<char>,
    squash: bool,
    no_commit: bool,
    parent: Option<usize>,
    head: Seq<u8>,
    other: Seq<u8>,
    base: Option<Seq<u8>>,
    r: ResultModel,
    table: Seq<char>,
    key: RowModel,
    before: Option<RowModel>,
    ours: Option<RowModel>,
    theirs: Option<RowModel>,
)
    requires
        merge_run(s, name, squash, no_commit, parent).1 == Ok::<ResultModel, Fault>(r),
        crate::staging::head_of(s) == Some(head),
        crate::staging::named(s, name) == Ok::<Seq<u8>, Fault>(other),
        is_merge_base(s, head, other, parent, base),
        ({
            let after = merge_run(s, name, squash, no_commit, parent).0;
            let was = snap_at(s, base);
            let here = snap_at(s, Some(head));
            let there = snap_at(s, Some(other));
            &&& was.dom().finite() && here.dom().finite() && there.dom().finite()
            &&& here.dom().contains(table) || there.dom().contains(table)
            &&& crate::table_merge::schemas_agree(after.conflicts, table)
            &&& crate::table_merge::are_sides(
                left_tables(after, r)[table],
                crate::merge::lookup(was, table),
                crate::merge::lookup(here, table),
                crate::merge::lookup(there, table),
                key,
                before,
                ours,
                theirs,
            )
        }),
    ensures
        ({
            let after = merge_run(s, name, squash, no_commit, parent).0;
            &&& left_tables(after, r).dom().contains(table)
            &&& crate::table_merge::is_merged_row(
                left_tables(after, r)[table],
                after.conflicts,
                table,
                key,
                before,
                ours,
                theirs,
            )
            &&& branch_follows(
                s,
                after,
                r,
                if squash {
                    seq![head]
                } else {
                    seq![head, other]
                },
                "Merge branch '"@ + name + "' into '"@ + s.head + "'"@,
            )
            &&& r is Committed <==> after.conflicts.len() == 0 && !no_commit
        }),
{
    let m = lemma_merge_left(s, name, squash, no_commit, parent, head, other, base, r, table);
    crate::table_merge::law_merge_goes_row_by_row(
        snap_at(s, base),
        snap_at(s, Some(head)),
        snap_at(s, Some(other)),
        m,
        table,
        key,
        before,
        ours,
        theirs,
    );
}

/// The same for a table without a primary key.
pub proof fn law_merge_without_a_key(
    s: StoreModel,
    name: Seq<char>,
    squash: bool,
    no_commit: bool,
    parent: Option<usize>,
    head: Seq<u8>,
    other: Seq<u8>,
    base: Option<Seq<u8>>,
    r: ResultModel,
    table: Seq<char>,
)
    requires
        merge_run(s, name, squash, no_commit, parent).1 == Ok::<ResultModel, Fault>(r),
        crate::staging::head_of(s) == Some(head),
        crate::staging::named(s, name) == Ok::<Seq<u8>, Fault>(other),
        is_merge_base(s, head, other, parent, base),
        ({
            let after = merge_run(s, name, squash, no_commit, parent).0;
            let was = snap_at(s, base);
            let here = snap_at(s, Some(head));
            let there = snap_at(s, Some(other));
            &&& was.dom().finite() && here.dom().finite() && there.dom().finite()
            &&& here.dom().contains(table) || there.dom().contains(table)
            &&& crate::table_merge::schemas_agree(after.conflicts, table)
            &&& left_tables(after, r)[table].pk.len() == 0
        }),
    ensures
        ({
            let after = merge_run(s, name, squash, no_commit, parent).0;
            &&& left_tables(after, r).dom().contains(table)
            &&& crate::table_merge::are_merged_rows(
                left_tables(after, r)[table],
                after.conflicts,
                table,
                crate::merge::lookup(snap_at(s, base), table),
                crate::merge::lookup(snap_at(s, Some(head)), table),
                crate::merge::lookup(snap_at(s, Some(other)), table),
            )
        }),
{
    let m = lemma_merge_left(s, name, squash, no_commit, parent, head, other, base, r, table);
    crate::table_merge::law_merge_without_a_key_takes_the_moved_side(
        snap_at(s, base),
        snap_at(s, Some(head)),
        snap_at(s, Some(other)),
        m,
        table,
    );
}

/// The tables of a commit are those that were recorded for it.
pub proof fn law_tables_of_a_commit(s: StoreModel, c: Seq<u8>)
    ensures
        s.snapshots.dom().contains(c) ==> snap_at(s, Some(c)) == s.snapshots[c],
        !s.snapshots.dom().contains(c) ==> snap_at(s, Some(c)) == TablesModel::empty(),
        snap_at(s, None) == TablesModel::empty(),
{
}

/// A merge that commits has the head and the merged commit as its parents; whatever it
/// comes to, the head is in the history of the branch.
pub proof fn lemma_merge_parents(
    s: StoreModel,
    name: Seq<char>,
    ours: Seq<u8>,
    theirs: Seq<u8>,
    r: ResultModel,
)
    requires
        merge_run(s, name, false, false, None).1 == Ok::<ResultModel, Fault>(r),
        crate::staging::head_of(s) == Some(ours),
        crate::staging::named(s, name) == Ok::<Seq<u8>, Fault>(theirs),
    ensures
        branch_follows(
            s,
            merge_run(s, name, false, false, None).0,
            r,
            seq![ours, theirs],
            "Merge branch '"@ + name + "' into '"@ + s.head + "'"@,
        ),
{
    let base = base_of(s, ours, theirs, None)->Ok_0;
    let m = crate::table_merge::merge_tables(
        snap_at(s, base),
        snap_at(s, Some(ours)),
        snap_at(s, Some(theirs)),
    )->Ok_0;
    let msg = "Merge branch '"@ + name + "' into '"@ + s.head + "'"@;
    if m.conflicts.len() == 0 {
        let parents = seq![ours, theirs];
        let id = commit_work(with_work(s, m.work), parents, msg).1->Ok_0;
        lemma_commit_follows(s, m.work, parents, msg, id);
    }
}

/// After a commit of the working contents nothing is staged, changed, in conflict or open,
/// and each table to work on is the one that the commit holds.
proof fn lemma_clean_tree(
    s: StoreModel,
    work: TablesModel,
    parents: Seq<Seq<u8>>,
    msg: Seq<char>,
    id: Seq<u8>,
    table: Seq<char>,
)
    requires
        commit_work(with_work(s, work), parents, msg).1 == Ok::<Seq<u8>, Fault>(id),
        parents.len() > 0,
        snap_at(s, Some(parents[0])).dom().finite(),
        work.dom().finite(),
    ensures
        is_clean_tree(s, commit_work(with_work(s, work), parents, msg).0, id, table),
{
    let w = with_work(s, work);
    let t = commit_work(w, parents, msg).0;
    assert(t.work == work && t.staged.is_empty() && t.unstaged.is_empty() && t.conflicts.len() == 0
        && t.violations.len() == 0 && t.rebase_state is None && t.dirty_work
        == s.dirty_work.union(work.dom()) && t.head == s.head && t.detached == s.detached) by {
        reveal(commit_work);
        reveal(put_replay);
    }
    if work.dom().contains(table) {
        lemma_replayed_tables(w, parents, msg, id, table);
    }
}

/// Is nothing staged, changed, in conflict or open, and is a table to work on the one that a
/// commit holds, and to be written by the host?
pub open spec fn is_clean_tree(s: StoreModel, t: StoreModel, id: Seq<u8>, table: Seq<char>) -> bool {
    &&& t.staged.is_empty() && t.unstaged.is_empty()
    &&& t.conflicts.len() == 0 && t.violations.len() == 0
    &&& t.rebase_state is None
    &&& t.head == s.head && t.detached == s.detached
    &&& t.work.dom().contains(table) ==> {
        &&& crate::remote_wire::tables_at(t.snapshots, id).dom().contains(table)
        &&& crate::remote_wire::tables_at(t.snapshots, id)[table] == t.work[table]
        &&& t.dirty_work.contains(table)
    }
    &&& s.dirty_work.contains(table) ==> t.dirty_work.contains(table)
}

/// A cherry-pick, a revert or a merge that made a commit leaves a clean tree, and no merge
/// open.
pub proof fn law_replay_leaves_a_clean_tree(
    s: StoreModel,
    text: Seq<char>,
    parent: Option<usize>,
    squash: bool,
    head: Seq<u8>,
    id: Seq<u8>,
    table: Seq<char>,
)
    requires
        crate::staging::head_of(s) == Some(head),
        snap_at(s, Some(head)).dom().finite(),
    ensures
        cherry_picked(s, text, parent).1 == Ok::<ResultModel, Fault>(MergeResult::Committed(id))
            ==> is_clean_tree(s, cherry_picked(s, text, parent).0, id, table),
        reverted(s, text, parent).1 == Ok::<ResultModel, Fault>(MergeResult::Committed(id))
            ==> is_clean_tree(s, reverted(s, text, parent).0, id, table),
        merge_run(s, text, squash, false, parent).1 == Ok::<ResultModel, Fault>(
            MergeResult::Committed(id),
        ) ==> is_clean_tree(s, merge_run(s, text, squash, false, parent).0, id, table)
            && merge_run(s, text, squash, false, parent).0.merge_state is None,
{
    let here = snap_at(s, Some(head));
    if let Ok((at, c, p)) = replay_source(s, text, parent) {
        let was = snap_at(s, p);
        let there = snap_at(s, Some(at));
        crate::table_merge::lemma_merged_finite(was, here, there);
        if let Ok(m) = crate::table_merge::merge_tables(was, here, there) {
            if commit_work(with_work(s, m.work), seq![head], c.message).1 == Ok::<Seq<u8>, Fault>(
                id,
            ) {
                lemma_clean_tree(s, m.work, seq![head], c.message, id, table);
            }
        }
        let back = tables_before(s, at, p);
        let msg = "Revert \""@ + c.message + "\""@;
        crate::table_merge::lemma_merged_finite(there, here, back);
        if let Ok(m) = crate::table_merge::merge_tables(there, here, back) {
            if commit_work(with_work(s, m.work), seq![head], msg).1 == Ok::<Seq<u8>, Fault>(id) {
                lemma_clean_tree(s, m.work, seq![head], msg, id, table);
            }
        }
    }
    if let Ok(other) = crate::staging::named(s, text) {
        if let Ok(base) = base_of(s, head, other, parent) {
            let was = snap_at(s, base);
            let there = snap_at(s, Some(other));
            let msg = "Merge branch '"@ + text + "' into '"@ + s.head + "'"@;
            let parents = if squash {
                seq![head]
            } else {
                seq![head, other]
            };
            crate::table_merge::lemma_merged_finite(was, here, there);
            if let Ok(m) = crate::table_merge::merge_tables(was, here, there) {
                if commit_work(with_work(s, m.work), parents, msg).1 == Ok::<Seq<u8>, Fault>(id) {
                    lemma_clean_tree(s, m.work, parents, msg, id, table);
                }
            }
        }
    }
}

/// A merge that makes no commit stays open: it notes the other side and the working contents
/// from before, stages every merged table, and keeps the history as it was. It counts its
/// conflicts, and is merely applied where there are none.
pub proof fn law_open_merge_waits(
    s: StoreModel,
    name: Seq<char>,
    squash: bool,
    no_commit: bool,
    parent: Option<usize>,
    r: ResultModel,
    table: Seq<char>,
)
    requires
        merge_run(s, name, squash, no_commit, parent).1 == Ok::<ResultModel, Fault>(r),
        !(r is Committed),
    ensures
        ({
            let t = merge_run(s, name, squash, no_commit, parent).0;
            &&& t.merge_state is Some
            &&& crate::staging::named(s, name) == Ok::<Seq<u8>, Fault>(t.merge_state->0.theirs)
            &&& t.merge_state->0.work_before == s.work
            &&& t.refs == s.refs && t.commits == s.commits && t.snapshots == s.snapshots
            &&& t.head == s.head && t.tables == s.tables
            &&& t.work.dom().contains(table) ==> t.staged.contains(table) && !t.unstaged.contains(
                table,
            ) && t.dirty_work.contains(table)
            &&& !t.work.dom().contains(table) ==> (t.staged.contains(table) <==> s.staged.contains(
                table,
            )) && (t.unstaged.contains(table) <==> s.unstaged.contains(table))
            &&& r is Applied <==> t.conflicts.len() == 0
            &&& r is Applied ==> no_commit
            &&& r matches MergeResult::Conflicts { rows, .. } ==> rows == t.conflicts.len() as usize
            &&& r matches MergeResult::SchemaConflict { table: x, .. } ==> exists|i: int|
                0 <= i < t.conflicts.len() && (#[trigger] t.conflicts[i]).table == x
                    && t.conflicts[i].kind is Schema
        }),
{
    let head = crate::staging::head_of(s)->0;
    let other = crate::staging::named(s, name)->Ok_0;
    let base = base_of(s, head, other, parent)->Ok_0;
    let m = crate::table_merge::merge_tables(
        snap_at(s, base),
        snap_at(s, Some(head)),
        snap_at(s, Some(other)),
    )->Ok_0;
    let t = merge_run(s, name, squash, no_commit, parent).0;
    assert(s.conflicts + m.conflicts =~= m.conflicts);
    assert(t == merge_opened(s, m, other));
    assert(t.conflicts == m.conflicts);
    lemma_schema_clash(m.conflicts);
    if let MergeResult::SchemaConflict { table: x, detail } = r {
        assert(crate::table_merge::schema_clash(m.conflicts) == Some((x, detail)));
        let i = choose|i: int|
            0 <= i < m.conflicts.len() && (#[trigger] m.conflicts[i]).table == x
                && m.conflicts[i].kind is Schema;
        assert(t.conflicts[i].table == x && t.conflicts[i].kind is Schema);
    }
}

proof fn lemma_schema_clash(entries: Seq<crate::conflicts::EntryModel>)
    ensures
        crate::table_merge::schema_clash(entries) matches Some((x, detail)) ==> exists|i: int|
            0 <= i < entries.len() && (#[trigger] entries[i]).table == x && entries[i].kind
                is Schema,
    decreases entries.len(),
{
    if entries.len() > 0 {
        if entries[0].kind is Schema {
            assert(entries[0].table == entries[0].table);
        } else {
            let d = entries.drop_first();
            lemma_schema_clash(d);
            if let Some((x, detail)) = crate::table_merge::schema_clash(d) {
                let i = choose|i: int|
                    0 <= i < d.len() && (#[trigger] d[i]).table == x && d[i].kind is Schema;
                assert(entries[i + 1] == d[i]);
            }
        }
    }
}

/// A merge commit is replayed only against a parent that was chosen and that it has; a
/// replay that is refused changes nothing.
pub proof fn law_merge_commit_needs_a_parent(s: StoreModel, text: Seq<char>, id: Seq<u8>, k: usize)
    requires
        crate::staging::named(s, text) == Ok::<Seq<u8>, Fault>(id),
        s.commits.dom().contains(id),
        s.detached is None && s.merge_state is None && s.rebase_state is None && s.conflicts.len()
            == 0,
    ensures
        ({
            let n = s.commits[id].parents.len();
            let refused = (s, Err::<ResultModel, Fault>(
                VersionError::CherryPickMergeNeedsParent(n as usize),
            ));
            &&& n > 1 ==> cherry_picked(s, text, None) == refused && reverted(s, text, None)
                == refused
            &&& k >= n ==> cherry_picked(s, text, Some(k)) == refused && reverted(
                s,
                text,
                Some(k),
            ) == refused
        }),
{
}

/// The detectors look at every table to work on, each with its rows and the schema that its
/// statement declares; what they find is kept and counted, and nothing else changes.
pub proof fn law_every_working_table_is_checked(
    s: StoreModel,
    n: usize,
    table: Seq<char>,
) -> (tables: Seq<crate::constraints::TableModel>)
    requires
        s.work.dom().finite(),
        checked(s).1 == Ok::<usize, Fault>(n),
        s.work.dom().contains(table),
    ensures
        ({
            let t = checked(s).0;
            &&& t == (StoreModel { violations: t.violations, ..s })
            &&& n == t.violations.len() as usize
            &&& t.violations == crate::constraints::all_violations(
                tables,
                tables.map_values(|x: crate::constraints::TableModel| x.schema),
            )
            &&& exists|i: int|
                0 <= i < tables.len() && (#[trigger] tables[i]).name == table && tables[i].rows
                    == s.work[table].rows && crate::table_merge::schema_for(table, s.work[table])
                    == Ok::<crate::merge_schema::SchemaModel, Fault>(tables[i].schema)
            &&& forall|i: int|
                0 <= i < tables.len() ==> s.work.dom().contains((#[trigger] tables[i]).name)
        }),
{
    let list = crate::names::ordered(s.work.dom());
    crate::names::law_ordered(s.work.dom());
    let tables = work_from(s.work, list, 0, seq![])->Ok_0;
    lemma_work_from(s.work, list, 0, seq![]);
    assert(list.to_set().contains(table));
    let k = choose|k: int| 0 <= k < list.len() && list[k] == table;
    assert(tables[k].name == table);
    assert forall|i: int| 0 <= i < tables.len() implies s.work.dom().contains(
        (#[trigger] tables[i]).name,
    ) by {
        assert(tables[i].name == list[i]);
        assert(list.to_set().contains(list[i]));
    }
    tables
}

proof fn lemma_work_from(
    work: TablesModel,
    list: Seq<Seq<char>>,
    i: int,
    got: Seq<crate::constraints::TableModel>,
)
    requires
        0 <= i <= list.len(),
        got.len() == i,
        forall|k: int|
            0 <= k < i ==> (#[trigger] got[k]).name == list[k] && got[k].rows == work[list[k]].rows
                && crate::table_merge::schema_for(list[k], work[list[k]]) == Ok::<
                crate::merge_schema::SchemaModel,
                Fault,
            >(got[k].schema),
    ensures
        work_from(work, list, i, got) matches Ok(all) ==> all.len() == list.len() && forall|k: int|
            0 <= k < list.len() ==> (#[trigger] all[k]).name == list[k] && all[k].rows
                == work[list[k]].rows && crate::table_merge::schema_for(list[k], work[list[k]])
                == Ok::<crate::merge_schema::SchemaModel, Fault>(all[k].schema),
    decreases list.len() - i,
{
    if i < list.len() {
        if let Ok(schema) = crate::table_merge::schema_for(list[i], work[list[i]]) {
            let next = got.push(
                crate::constraints::TableModel {
                    name: list[i],
                    schema,
                    rows: work[list[i]].rows,
                },
            );
            lemma_work_from(work, list, i + 1, next);
        }
    }
}

} // verus!
