//! The state of merges and rebases that are under way.

use vstd::prelude::*;

use crate::assoc::AssocMap;
use crate::model::CommitId;
use crate::table_merge::{MergeTableStats, Tables, TablesModel};
use crate::text::Dup;

verus! {

/// An open merge: the side being merged, the working set from before it, and the
/// counts of each table.
#[derive(Debug, Clone)]
pub struct MergeState {
    pub theirs: CommitId,
    pub work_before: Tables,
    pub stats: AssocMap<String, MergeTableStats>,
}

/// What an open merge stands for.
pub struct MergeStateModel {
    pub theirs: Seq<u8>,
    pub work_before: TablesModel,
    pub stats: Map<Seq<char>, MergeTableStats>,
}

impl DeepView for MergeState {
    type V = MergeStateModel;

    open spec fn deep_view(&self) -> MergeStateModel {
        MergeStateModel {
            theirs: self.theirs@,
            work_before: self.work_before.deep_view(),
            stats: self.stats.deep_view(),
        }
    }
}

impl Dup for MergeState {
    fn dup(&self) -> (r: Self) {
        MergeState {
            theirs: self.theirs,
            work_before: self.work_before.dup(),
            stats: self.stats.dup(),
        }
    }
}

/// One step of a rebase plan, over the types of a commit id and of a text.
#[derive(Debug, Clone, PartialEq, Eq)]
pub enum RebaseStep<C = CommitId, S = String> {
    Pick(C),
    Drop(C),
    Reword(C, S),
    Squash(C),
    Fixup(C),
}

/// What a step stands for.
pub type StepModel = RebaseStep<Seq<u8>, Seq<char>>;

impl DeepView for RebaseStep {
    type V = StepModel;

    open spec fn deep_view(&self) -> StepModel {
        match *self {
            RebaseStep::Pick(c) => RebaseStep::Pick(c@),
            RebaseStep::Drop(c) => RebaseStep::Drop(c@),
            RebaseStep::Reword(c, m) => RebaseStep::Reword(c@, m@),
            RebaseStep::Squash(c) => RebaseStep::Squash(c@),
            RebaseStep::Fixup(c) => RebaseStep::Fixup(c@),
        }
    }
}

impl Dup for RebaseStep {
    fn dup(&self) -> (r: Self) {
        match self {
            RebaseStep::Pick(c) => RebaseStep::Pick(*c),
            RebaseStep::Drop(c) => RebaseStep::Drop(*c),
            RebaseStep::Reword(c, m) => RebaseStep::Reword(*c, m.clone()),
            RebaseStep::Squash(c) => RebaseStep::Squash(*c),
            RebaseStep::Fixup(c) => RebaseStep::Fixup(*c),
        }
    }
}

/// A paused rebase. The working set of the rebase holds what was replayed so far;
/// `work_before` is the working set from before it started.
#[derive(Debug, Clone)]
pub struct RebaseState {
    pub original_head: CommitId,
    pub onto: CommitId,
    pub steps: Vec<RebaseStep>,
    pub replay_head: CommitId,
    pub rebase_work: Tables,
    pub combined_message: Option<String>,
    pub conflicted_hash: String,
    pub work_before: Tables,
}

/// What a paused rebase stands for.
pub struct RebaseStateModel {
    pub original_head: Seq<u8>,
    pub onto: Seq<u8>,
    pub steps: Seq<StepModel>,
    pub replay_head: Seq<u8>,
    pub rebase_work: TablesModel,
    pub combined_message: Option<Seq<char>>,
    pub conflicted_hash: Seq<char>,
    pub work_before: TablesModel,
}

impl DeepView for RebaseState {
    type V = RebaseStateModel;

    open spec fn deep_view(&self) -> RebaseStateModel {
        RebaseStateModel {
            original_head: self.original_head@,
            onto: self.onto@,
            steps: self.steps.deep_view(),
            replay_head: self.replay_head@,
            rebase_work: self.rebase_work.deep_view(),
            combined_message: self.combined_message.deep_view(),
            conflicted_hash: self.conflicted_hash@,
            work_before: self.work_before.deep_view(),
        }
    }
}

impl Dup for RebaseState {
    fn dup(&self) -> (r: Self) {
        RebaseState {
            original_head: self.original_head,
            onto: self.onto,
            steps: self.steps.dup(),
            replay_head: self.replay_head,
            rebase_work: self.rebase_work.dup(),
            combined_message: self.combined_message.dup(),
            conflicted_hash: self.conflicted_hash.clone(),
            work_before: self.work_before.dup(),
        }
    }
}

} // verus!
