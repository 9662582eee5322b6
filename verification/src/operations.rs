//! The operations that the scalar functions need from a repository.

use vstd::prelude::*;

use crate::conflicts::ResolveSide;
use crate::model::{CommitId, VersionError, VersionResult};
use crate::remote_transport::RemoteTransport;
use crate::replay::{MergeResult, MergeStatusRow, RebaseStep};
use crate::staging::{StatusRow, StoreModel, VcStore};
use crate::table_merge::Fault;
use crate::values::VcValue;

verus! {

/// The nearest common ancestor of two revisions.
pub open spec fn base_of_revisions(s: StoreModel, a: Seq<char>, b: Seq<char>) -> Result<
    Option<Seq<u8>>,
    Fault,
> {
    match crate::staging::named(s, a) {
        Err(e) => Err(e),
        Ok(x) => match crate::staging::named(s, b) {
            Err(e) => Err(e),
            Ok(y) => crate::commit::merge_base_of(s.commits, x, y),
        },
    }
}

/// The branch to fetch: the given one, or the remote's default branch.
pub open spec fn fetched_branch<T: RemoteTransport>(
    s: StoreModel,
    t: T::State,
    remote: Seq<char>,
    branch: Option<Seq<char>>,
) -> (T::State, Result<Seq<char>, Fault>) {
    match branch {
        Some(b) => (t, Ok(b)),
        None => if crate::remote::url_of(s, remote) is None {
            (t, Err(VersionError::RemoteNotFound))
        } else {
            T::default_said(t)
        },
    }
}

/// Fetch a branch, or the remote's default branch.
pub open spec fn fetched_from<T: RemoteTransport>(
    s: StoreModel,
    t: T::State,
    remote: Seq<char>,
    branch: Option<Seq<char>>,
) -> crate::remote::Transfer<T::State> {
    let (u, found) = fetched_branch::<T>(s, t, remote, branch);
    match found {
        Err(e) => (s, u, Err(e)),
        Ok(b) => crate::remote::fetched::<T>(s, u, remote, b),
    }
}

/// Remove what nothing reaches, where the repository is quiet.
pub open spec fn swept(s: StoreModel) -> (StoreModel, Result<Seq<char>, Fault>) {
    if !crate::staging::quiet(s) {
        (s, Err(VersionError::GcRequiresExclusiveAccess))
    } else {
        let st = crate::gc::gc_stats(s);
        (
            crate::gc::collected(s),
            Ok(
                crate::text::decimal(st.removed as nat) + " chunks removed, "@
                    + crate::text::decimal(st.kept as nat) + " chunks kept"@,
            ),
        )
    }
}

/// What the scalar functions need from a repository.
pub trait VcOperations: DeepView<V = StoreModel> + Sized {
    /// Stage tables; how many they are.
    fn add(&mut self, tables: &[&str]) -> (r: VersionResult<usize>)
        ensures
            ({
                let (s, out) = crate::staging::add_tables(
                    old(self).deep_view(),
                    crate::staging::strs(tables@),
                );
                final(self).deep_view() == s && (match out {
                    Ok(_) => r matches Ok(n) && n == tables@.len(),
                    Err(e) => r matches Err(x) && x.deep_view() == e,
                })
            }),
    ;

    /// Stage all changes; how many tables they are in.
    fn add_all(&mut self) -> (r: VersionResult<usize>)
        ensures
            match crate::staging::write_guard(old(self).deep_view()) {
                Some(e) => final(self).deep_view() == old(self).deep_view() && (r matches Err(x)
                    && x.deep_view() == e),
                None => (r matches Ok(n) && n == crate::names::ordered(
                    old(self).deep_view().unstaged,
                ).len()) && final(self).deep_view() == crate::staging::staged_with(
                    old(self).deep_view(),
                    old(self).deep_view().unstaged,
                ),
            },
    ;

    /// Commit what is staged.
    fn commit(&mut self, msg: &str, author: Option<(&str, &str)>, all: bool, force: bool) -> (r:
        VersionResult<CommitId>)
        ensures
            ({
                let given = match author {
                    Some(a) => Some((a.0@, a.1@)),
                    None => None,
                };
                let (s, out) = crate::staging::committed(
                    old(self).deep_view(),
                    msg@,
                    given,
                    all,
                    force,
                );
                final(self).deep_view() == s && crate::model::outcome(r) == out
            }),
    ;

    /// Create a branch at the head.
    fn create_branch(&mut self, name: &str) -> (r: VersionResult<()>)
        ensures
            ({
                let (s, out) = crate::staging::branched(old(self).deep_view(), name@);
                final(self).deep_view() == s && crate::model::outcome(r) == out
            }),
    ;

    /// Delete a branch.
    fn delete_branch(&mut self, name: &str) -> (r: VersionResult<()>)
        ensures
            ({
                let (s, out) = crate::staging::unbranched(old(self).deep_view(), name@);
                final(self).deep_view() == s && crate::model::outcome(r) == out
            }),
    ;

    /// The branches by name.
    fn list_branches(&self) -> (r: Vec<String>)
        ensures
            r.deep_view() == crate::names::ordered(self.deep_view().branches),
    ;

    /// Go to a branch.
    fn checkout(&mut self, name: &str) -> (r: VersionResult<()>)
        ensures
            ({
                let (s, out) = crate::staging::checked_out(old(self).deep_view(), name@);
                final(self).deep_view() == s && crate::model::outcome(r) == out
            }),
    ;

    /// Set a tag.
    fn create_tag(&mut self, name: &str, at: CommitId) -> (r: VersionResult<()>)
        ensures
            ({
                let (s, out) = crate::staging::tagged(old(self).deep_view(), name@, at@);
                final(self).deep_view() == s && crate::model::outcome(r) == out
            }),
    ;

    /// Delete a tag.
    fn delete_tag(&mut self, name: &str) -> (r: VersionResult<()>)
        ensures
            ({
                let (s, out) = crate::staging::untagged(old(self).deep_view(), name@);
                final(self).deep_view() == s && crate::model::outcome(r) == out
            }),
    ;

    /// The current branch; none while detached.
    fn active_branch(&self) -> (r: Option<&str>)
        ensures
            match r {
                Some(b) => self.deep_view().detached is None && b@ == self.deep_view().head,
                None => self.deep_view().detached is Some,
            },
    ;

    /// The commit that a revision names.
    fn resolve(&self, revision: &str) -> (r: VersionResult<CommitId>)
        ensures
            crate::model::outcome(r) == crate::staging::named(self.deep_view(), revision@),
    ;

    /// A configuration value.
    fn config_get(&self, key: &str) -> (r: Option<String>)
        ensures
            r.deep_view() == crate::merge::lookup(self.deep_view().config, key@),
    ;

    /// Set a configuration value.
    fn config_set(&mut self, key: &str, value: &str)
        ensures
            final(self).deep_view() == (StoreModel {
                config: old(self).deep_view().config.insert(key@, value@),
                ..old(self).deep_view()
            }),
    ;

    /// The tracked tables.
    fn tables(&self) -> (r: Vec<String>)
        ensures
            r.deep_view() == self.deep_view().tables,
    ;

    /// The hash of a table's contents.
    fn table_hash(&self, table: &str, revision: Option<&str>) -> (r: VersionResult<String>)
        ensures
            ({
                let rev = match revision {
                    Some(t) => Some(t@),
                    None => None,
                };
                crate::model::outcome(r) == crate::funcs::table_hash_of(
                    self.deep_view(),
                    table@,
                    rev,
                )
            }),
    ;

    /// The hash of all tables.
    fn db_hash(&self, revision: Option<&str>) -> (r: VersionResult<String>)
        ensures
            ({
                let rev = match revision {
                    Some(t) => Some(t@),
                    None => None,
                };
                crate::model::outcome(r) == crate::funcs::db_hash_of(self.deep_view(), rev)
            }),
    ;

    /// The changed tables.
    fn status(&self) -> (r: Vec<StatusRow>)
        ensures
            r.deep_view() == crate::staging::status_of(self.deep_view()),
    ;

    /// Unstage everything.
    fn reset_soft(&mut self) -> (r: VersionResult<()>)
        ensures
            ({
                let (s, out) = crate::staging::soft_reset(old(self).deep_view());
                final(self).deep_view() == s && crate::model::outcome(r) == out
            }),
    ;

    /// Go back to the head.
    fn reset_hard(&mut self) -> (r: VersionResult<()>)
        ensures
            ({
                let (s, out) = crate::staging::hard_reset(old(self).deep_view());
                final(self).deep_view() == s && crate::model::outcome(r) == out
            }),
    ;

    /// Forget tables that were never committed; their names.
    fn clean(&mut self) -> (r: VersionResult<Vec<String>>)
        ensures
            match crate::staging::write_guard(old(self).deep_view()) {
                Some(e) => (r matches Err(x) && x.deep_view() == e) && final(self).deep_view()
                    == old(self).deep_view(),
                None => (r matches Ok(v) && v.deep_view() == crate::names::ordered(
                    crate::staging::strays(old(self).deep_view()),
                )) && final(self).deep_view() == crate::staging::cleaned(old(self).deep_view()),
            },
    ;

    /// Merge a branch.
    fn merge_branch(&mut self, branch: &str, squash: bool, no_commit: bool, parent: Option<usize>) -> (r:
        VersionResult<MergeResult>)
        ensures
            ({
                let (s, out) = crate::replay::merge_run(
                    old(self).deep_view(),
                    branch@,
                    squash,
                    no_commit,
                    parent,
                );
                final(self).deep_view() == s && crate::model::outcome(r) == out
            }),
    ;

    /// Abort the open merge.
    fn merge_abort(&mut self) -> (r: VersionResult<()>)
        ensures
            ({
                let (s, out) = crate::replay::merge_aborted(old(self).deep_view());
                final(self).deep_view() == s && crate::model::outcome(r) == out
            }),
    ;

    /// The nearest common ancestor of two revisions.
    fn merge_base(&self, a: &str, b: &str) -> (r: VersionResult<Option<CommitId>>)
        ensures
            crate::model::outcome(r) == base_of_revisions(self.deep_view(), a@, b@),
    ;

    /// Replay a commit onto the head.
    fn cherry_pick(&mut self, commit: &str, parent: Option<usize>) -> (r: VersionResult<
        MergeResult,
    >)
        ensures
            ({
                let (s, out) = crate::replay::cherry_picked(old(self).deep_view(), commit@, parent);
                final(self).deep_view() == s && crate::model::outcome(r) == out
            }),
    ;

    /// Replay the inverse of a commit onto the head.
    fn revert(&mut self, commit: &str, parent: Option<usize>) -> (r: VersionResult<MergeResult>)
        ensures
            ({
                let (s, out) = crate::replay::reverted(old(self).deep_view(), commit@, parent);
                final(self).deep_view() == s && crate::model::outcome(r) == out
            }),
    ;

    /// Replay the branch onto another commit.
    fn rebase_onto(&mut self, onto: &str) -> (r: VersionResult<CommitId>)
        ensures
            ({
                let (s, out) = crate::replay::rebased(old(self).deep_view(), onto@);
                final(self).deep_view() == s && crate::model::outcome(r) == out
            }),
    ;

    /// Plan a replay of the branch and pause; how many steps it has.
    fn rebase_plan(&mut self, onto: &str) -> (r: VersionResult<usize>)
        ensures
            ({
                let (s, out) = crate::replay::rebase_planned(old(self).deep_view(), onto@);
                final(self).deep_view() == s && (match out {
                    Ok(n) => r == Ok::<usize, VersionError>(n),
                    Err(e) => r matches Err(x) && x.deep_view() == e,
                })
            }),
    ;

    /// Replace the plan of the paused rebase.
    fn rebase_edit_plan(&mut self, steps: Vec<RebaseStep>) -> (r: VersionResult<()>)
        ensures
            ({
                let (s, out) = crate::replay::plan_edited(old(self).deep_view(), steps.deep_view());
                final(self).deep_view() == s && crate::model::outcome(r) == out
            }),
    ;

    /// Go on with the paused rebase.
    fn rebase_continue(&mut self) -> (r: VersionResult<CommitId>)
        ensures
            ({
                let (s, out) = crate::replay::rebase_continued(old(self).deep_view());
                final(self).deep_view() == s && crate::model::outcome(r) == out
            }),
    ;

    /// Give up the paused rebase.
    fn rebase_abort(&mut self) -> (r: VersionResult<()>)
        ensures
            ({
                let (s, out) = crate::replay::rebase_aborted(old(self).deep_view());
                final(self).deep_view() == s && crate::model::outcome(r) == out
            }),
    ;

    /// Resolve a conflict by taking a side.
    fn resolve_conflict(&mut self, table: &str, pk: &Vec<VcValue>, side: ResolveSide) -> (r:
        VersionResult<()>)
        ensures
            ({
                let (s, out) = crate::conflicts::resolution(
                    old(self).deep_view(),
                    table@,
                    pk.deep_view(),
                    side,
                );
                final(self).deep_view() == s && crate::model::outcome(r) == out
            }),
    ;

    /// Note the violations of the working set; how many.
    fn verify_constraints(&mut self) -> (r: VersionResult<usize>)
        ensures
            ({
                let (s, out) = crate::replay::checked(old(self).deep_view());
                final(self).deep_view() == s && (match out {
                    Ok(n) => r == Ok::<usize, VersionError>(n),
                    Err(e) => r matches Err(x) && x.deep_view() == e,
                })
            }),
    ;

    /// The tables of the open merge.
    fn merge_status_rows(&self) -> (r: Vec<MergeStatusRow>)
        ensures
            r.deep_view() == crate::replay::merge_status(self.deep_view()),
    ;

    /// Add a remote.
    fn remote_add(&mut self, name: &str, url: &str) -> (r: VersionResult<()>)
        ensures
            ({
                let (s, out) = crate::remote::remote_added(old(self).deep_view(), name@, url@);
                final(self).deep_view() == s && crate::model::outcome(r) == out
            }),
    ;

    /// Remove a remote.
    fn remote_remove(&mut self, name: &str) -> (r: VersionResult<()>)
        ensures
            ({
                let (s, out) = crate::remote::remote_removed(old(self).deep_view(), name@);
                final(self).deep_view() == s && crate::model::outcome(r) == out
            }),
    ;

    /// Push a branch through a transport.
    fn push_branch<T: RemoteTransport>(&self, transport: &mut T, remote: &str, branch: &str, force: bool) -> (r:
        VersionResult<()>)
        ensures
            crate::remote::pushed::<T>(
                self.deep_view(),
                old(transport).state(),
                remote@,
                branch@,
                force,
            ) == (final(transport).state(), crate::model::outcome(r)),
    ;

    /// Fetch a branch, or the remote's default branch.
    fn fetch<T: RemoteTransport>(&mut self, transport: &mut T, remote: &str, branch: Option<&str>) -> (r:
        VersionResult<()>)
        ensures
            ({
                let given = match branch {
                    Some(b) => Some(b@),
                    None => None,
                };
                fetched_from::<T>(old(self).deep_view(), old(transport).state(), remote@, given)
                    == (final(self).deep_view(), final(transport).state(), crate::model::outcome(r))
            }),
    ;

    /// Fetch a branch and catch up with it.
    fn pull<T: RemoteTransport>(&mut self, transport: &mut T, remote: &str, branch: &str) -> (r:
        VersionResult<()>)
        ensures
            ({
                let (s, t, out) = crate::remote::pulled::<T>(
                    old(self).deep_view(),
                    old(transport).state(),
                    remote@,
                    branch@,
                );
                &&& final(self).deep_view() == s
                &&& final(transport).state() == t
                &&& match out {
                    Ok(_) => r is Ok,
                    Err(e) => r matches Err(x) && x.deep_view() == e,
                }
            }),
    ;

    /// Clone a remote.
    fn clone_remote<T: RemoteTransport>(&mut self, transport: &mut T, url: &str, lazy: bool) -> (r:
        VersionResult<()>)
        ensures
            crate::remote::cloned_from::<T>(
                old(self).deep_view(),
                old(transport).state(),
                url@,
                lazy,
            ) == (final(self).deep_view(), final(transport).state(), crate::model::outcome(r)),
    ;

    /// Remove what nothing reaches, where the repository is quiet; a summary.
    fn gc(&mut self) -> (r: VersionResult<String>)
        ensures
            ({
                let (s, out) = swept(old(self).deep_view());
                final(self).deep_view() == s && crate::model::outcome(r) == out
            }),
    ;
}

impl VcStore {
    /// The default branch of a remote.
    pub fn remote_default_branch<T: RemoteTransport>(&self, transport: &mut T, remote: &str) -> (r:
        VersionResult<String>)
        ensures
            fetched_branch::<T>(self.deep_view(), old(transport).state(), remote@, None) == (
                final(transport).state(),
                crate::model::outcome(r),
            ),
    {
        match self.remote_url(remote) {
            Ok(_) => transport.default_branch(),
            Err(e) => Err(e),
        }
    }
}

impl VcOperations for VcStore {
    fn add(&mut self, tables: &[&str]) -> (r: VersionResult<usize>) {
        match self.dolt_add(tables) {
            Ok(_) => Ok(tables.len()),
            Err(e) => Err(e),
        }
    }

    fn add_all(&mut self) -> (r: VersionResult<usize>) {
        let changed = self.changed_tables();
        assert(changed.deep_view().len() == changed@.len());
        match VcStore::add_all(self) {
            Ok(_) => Ok(changed.len()),
            Err(e) => Err(e),
        }
    }

    fn commit(&mut self, msg: &str, author: Option<(&str, &str)>, all: bool, force: bool) -> (r:
        VersionResult<CommitId>) {
        self.dolt_commit(msg, author, all, force)
    }

    fn create_branch(&mut self, name: &str) -> (r: VersionResult<()>) {
        VcStore::create_branch(self, name)
    }

    fn delete_branch(&mut self, name: &str) -> (r: VersionResult<()>) {
        VcStore::delete_branch(self, name)
    }

    fn list_branches(&self) -> (r: Vec<String>) {
        VcStore::list_branches(self)
    }

    fn checkout(&mut self, name: &str) -> (r: VersionResult<()>) {
        VcStore::checkout(self, name)
    }

    fn create_tag(&mut self, name: &str, at: CommitId) -> (r: VersionResult<()>) {
        VcStore::create_tag(self, name, at)
    }

    fn delete_tag(&mut self, name: &str) -> (r: VersionResult<()>) {
        VcStore::delete_tag(self, name)
    }

    fn active_branch(&self) -> (r: Option<&str>) {
        VcStore::active_branch(self)
    }

    fn resolve(&self, revision: &str) -> (r: VersionResult<CommitId>) {
        VcStore::resolve(self, revision)
    }

    fn config_get(&self, key: &str) -> (r: Option<String>) {
        VcStore::config_get(self, key)
    }

    fn config_set(&mut self, key: &str, value: &str) {
        VcStore::config_set(self, key, value)
    }

    fn tables(&self) -> (r: Vec<String>) {
        VcStore::tables(self)
    }

    fn table_hash(&self, table: &str, revision: Option<&str>) -> (r: VersionResult<String>) {
        VcStore::table_hash(self, table, revision)
    }

    fn db_hash(&self, revision: Option<&str>) -> (r: VersionResult<String>) {
        VcStore::db_hash(self, revision)
    }

    fn status(&self) -> (r: Vec<StatusRow>) {
        VcStore::status(self)
    }

    fn reset_soft(&mut self) -> (r: VersionResult<()>) {
        VcStore::reset_soft(self)
    }

    fn reset_hard(&mut self) -> (r: VersionResult<()>) {
        VcStore::reset_hard(self)
    }

    fn clean(&mut self) -> (r: VersionResult<Vec<String>>) {
        VcStore::clean(self)
    }

    fn merge_branch(&mut self, branch: &str, squash: bool, no_commit: bool, parent: Option<usize>) -> (r:
        VersionResult<MergeResult>) {
        VcStore::merge_branch(self, branch, squash, no_commit, parent)
    }

    fn merge_abort(&mut self) -> (r: VersionResult<()>) {
        VcStore::merge_abort(self)
    }

    fn merge_base(&self, a: &str, b: &str) -> (r: VersionResult<Option<CommitId>>) {
        let x = match VcStore::resolve(self, a) {
            Ok(id) => id,
            Err(e) => {
                return Err(e);
            },
        };
        let y = match VcStore::resolve(self, b) {
            Ok(id) => id,
            Err(e) => {
                return Err(e);
            },
        };
        self.merge_base_of(x, y)
    }

    fn cherry_pick(&mut self, commit: &str, parent: Option<usize>) -> (r: VersionResult<
        MergeResult,
    >) {
        VcStore::cherry_pick(self, commit, parent)
    }

    fn revert(&mut self, commit: &str, parent: Option<usize>) -> (r: VersionResult<MergeResult>) {
        VcStore::revert(self, commit, parent)
    }

    fn rebase_onto(&mut self, onto: &str) -> (r: VersionResult<CommitId>) {
        VcStore::rebase_onto(self, onto)
    }

    fn rebase_plan(&mut self, onto: &str) -> (r: VersionResult<usize>) {
        VcStore::rebase_plan(self, onto)
    }

    fn rebase_edit_plan(&mut self, steps: Vec<RebaseStep>) -> (r: VersionResult<()>) {
        VcStore::rebase_edit_plan(self, steps)
    }

    fn rebase_continue(&mut self) -> (r: VersionResult<CommitId>) {
        VcStore::rebase_continue(self)
    }

    fn rebase_abort(&mut self) -> (r: VersionResult<()>) {
        VcStore::rebase_abort(self)
    }

    fn resolve_conflict(&mut self, table: &str, pk: &Vec<VcValue>, side: ResolveSide) -> (r:
        VersionResult<()>) {
        VcStore::resolve_conflict(self, table, pk, side)
    }

    fn verify_constraints(&mut self) -> (r: VersionResult<usize>) {
        VcStore::verify_constraints(self)
    }

    fn merge_status_rows(&self) -> (r: Vec<MergeStatusRow>) {
        VcStore::merge_status_rows(self)
    }

    fn remote_add(&mut self, name: &str, url: &str) -> (r: VersionResult<()>) {
        VcStore::remote_add(self, name, url)
    }

    fn remote_remove(&mut self, name: &str) -> (r: VersionResult<()>) {
        VcStore::remote_remove(self, name)
    }

    fn push_branch<T: RemoteTransport>(&self, transport: &mut T, remote: &str, branch: &str, force: bool) -> (r:
        VersionResult<()>) {
        VcStore::push(self, transport, remote, branch, force)
    }

    fn fetch<T: RemoteTransport>(&mut self, transport: &mut T, remote: &str, branch: Option<&str>) -> (r:
        VersionResult<()>) {
        match branch {
            Some(b) => VcStore::fetch(self, transport, remote, b),
            None => match self.remote_default_branch(transport, remote) {
                Ok(b) => VcStore::fetch(self, transport, remote, b.as_str()),
                Err(e) => Err(e),
            },
        }
    }

    fn pull<T: RemoteTransport>(&mut self, transport: &mut T, remote: &str, branch: &str) -> (r:
        VersionResult<()>) {
        match VcStore::pull(self, transport, remote, branch) {
            Ok(_) => Ok(()),
            Err(e) => Err(e),
        }
    }

    fn clone_remote<T: RemoteTransport>(&mut self, transport: &mut T, url: &str, lazy: bool) -> (r:
        VersionResult<()>) {
        VcStore::clone_remote(self, transport, url, lazy)
    }

    fn gc(&mut self) -> (r: VersionResult<String>) {
        match crate::gc::gc_exclusive(self) {
            Ok(_) => Ok(crate::gc::collect_garbage(self).summary()),
            Err(e) => Err(e),
        }
    }
}

} // verus!
