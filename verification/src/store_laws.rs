//! What the operations on a store do to it, and what they leave alone.

use vstd::prelude::*;

use crate::model::VersionError;
use crate::refs::RefNs;
use crate::staging::{SnapModel, StatusModel, StoreModel, TableState};
use crate::table_merge::Fault;

verus! {

/// Is the history the same: commits, snapshots, branches and tags?
pub open spec fn same_history(s: StoreModel, t: StoreModel) -> bool {
    &&& t.head == s.head
    &&& t.detached == s.detached
    &&& t.refs == s.refs
    &&& t.branches == s.branches
    &&& t.commits == s.commits
    &&& t.snapshots == s.snapshots
    &&& t.snap_index == s.snap_index
    &&& same_remotes(s, t)
}

/// Is what is known of remotes the same?
pub open spec fn same_remotes(s: StoreModel, t: StoreModel) -> bool {
    &&& t.tracking == s.tracking
    &&& t.remotes == s.remotes
    &&& t.config == s.config
    &&& t.now == s.now
    &&& t.in_txn == s.in_txn
    &&& t.lazy_origin == s.lazy_origin
    &&& t.lazy_catalog == s.lazy_catalog
}

/// Is the working state the same: tables, their contents, the stage, and what is open?
pub open spec fn same_working_state(s: StoreModel, t: StoreModel) -> bool {
    &&& t.tables == s.tables
    &&& t.work == s.work
    &&& t.staged == s.staged
    &&& t.unstaged == s.unstaged
    &&& t.dirty_work == s.dirty_work
    &&& same_open_work(s, t)
}

/// Are conflicts, violations and an open merge or rebase the same?
pub open spec fn same_open_work(s: StoreModel, t: StoreModel) -> bool {
    &&& t.conflicts == s.conflicts
    &&& t.violations == s.violations
    &&& t.pending_resolve == s.pending_resolve
    &&& t.merge_state == s.merge_state
    &&& t.rebase_state == s.rebase_state
}

/// The head: where it is detached, that commit, else the tip of its branch.
pub open spec fn is_head(s: StoreModel, id: Option<Seq<u8>>) -> bool {
    match s.detached {
        Some(d) => id == Some(d),
        None => if s.refs.dom().contains((RefNs::Heads, s.head)) {
            id == Some(s.refs[(RefNs::Heads, s.head)])
        } else {
            id is None
        },
    }
}

/// Does a commit hold a table with these contents?
pub open spec fn held_at(s: StoreModel, id: Option<Seq<u8>>, table: Seq<char>, snap: SnapModel) -> bool {
    &&& id is Some
    &&& s.snapshots.dom().contains(id->0)
    &&& s.snapshots[id->0].dom().contains(table)
    &&& s.snapshots[id->0][table] == snap
}

/// Does a commit hold a table?
pub open spec fn has_at(s: StoreModel, id: Option<Seq<u8>>, table: Seq<char>) -> bool {
    id is Some && s.snapshots.dom().contains(id->0) && s.snapshots[id->0].dom().contains(table)
}

proof fn lemma_head(s: StoreModel, id: Option<Seq<u8>>)
    ensures
        is_head(s, id) <==> id == crate::staging::head_of(s),
        forall|t: Seq<char>| #[trigger]
            crate::staging::head_tables(s).dom().contains(t) <==> has_at(
                s,
                crate::staging::head_of(s),
                t,
            ),
        forall|t: Seq<char>| #[trigger]
            crate::staging::head_tables(s).dom().contains(t) ==> held_at(
                s,
                crate::staging::head_of(s),
                t,
                crate::staging::head_tables(s)[t],
            ),
{
}

proof fn lemma_untracked_from(tables: Seq<Seq<char>>, names: Seq<Seq<char>>, i: int)
    requires
        0 <= i,
    ensures
        match crate::staging::untracked_from(tables, names, i) {
            Some(n) => !tables.contains(n) && exists|k: int|
                i <= k < names.len() && names[k] == n && forall|j: int|
                    i <= j < k ==> tables.contains(#[trigger] names[j]),
            None => forall|k: int| i <= k < names.len() ==> tables.contains(#[trigger] names[k]),
        },
    decreases names.len() - i,
{
    if i < names.len() && tables.contains(names[i]) {
        lemma_untracked_from(tables, names, i + 1);
        if let Some(n) = crate::staging::untracked_from(tables, names, i + 1) {
            let k = choose|k: int|
                i + 1 <= k < names.len() && names[k] == n && forall|j: int|
                    i + 1 <= j < k ==> tables.contains(#[trigger] names[j]);
            assert(names[k] == n && forall|j: int|
                i <= j < k ==> tables.contains(#[trigger] names[j]));
        }
    } else if i < names.len() {
        assert(names[i] == names[i] && forall|j: int|
            i <= j < i ==> tables.contains(#[trigger] names[j]));
    }
}

/// Staging tables moves exactly these from the changes to the stage, if all of them are
/// tracked; else the first that is not is named, and nothing happens.
pub proof fn law_add_stages_the_named_tables(s: StoreModel, names: Seq<Seq<char>>)
    requires
        s.detached is None,
    ensures
        ({
            let (t, out) = crate::staging::add_tables(s, names);
            if forall|i: int| 0 <= i < names.len() ==> s.tables.contains(#[trigger] names[i]) {
                &&& out is Ok
                &&& same_history(s, t)
                &&& same_open_work(s, t)
                &&& t.tables == s.tables && t.work == s.work && t.dirty_work == s.dirty_work
                &&& forall|x: Seq<char>| #[trigger]
                    t.staged.contains(x) <==> s.staged.contains(x) || names.contains(x)
                &&& forall|x: Seq<char>| #[trigger]
                    t.unstaged.contains(x) <==> s.unstaged.contains(x) && !names.contains(x)
            } else {
                &&& t == s
                &&& out matches Err(VersionError::TableNotFound(n)) && names.contains(n)
                    && !s.tables.contains(n)
            }
        }),
{
    lemma_untracked_from(s.tables, names, 0);
    assert forall|x: Seq<char>| #[trigger] names.to_set().contains(x) <==> names.contains(x) by {}
}

/// A commit is refused for a detached head, conflicts, violations (unless it is forced),
/// an empty stage without an open merge, or a missing author, and for nothing else.
pub proof fn law_commit_is_refused_for_cause(
    s: StoreModel,
    msg: Seq<char>,
    given: Option<(Seq<char>, Seq<char>)>,
    all: bool,
    force: bool,
)
    ensures
        ({
            let (t, out) = crate::staging::committed(s, msg, given, all, force);
            let staged = exists|x: Seq<char>| #[trigger]
                s.staged.contains(x) || (all && s.unstaged.contains(x));
            let signed = given is Some || (s.config.dom().contains("user.name"@)
                && s.config.dom().contains("user.email"@));
            if s.detached is Some {
                out == Err::<Seq<u8>, Fault>(VersionError::DetachedHeadWrite)
            } else if s.conflicts.len() > 0 {
                out == Err::<Seq<u8>, Fault>(VersionError::Conflicts)
            } else if s.violations.len() > 0 && !force {
                out == Err::<Seq<u8>, Fault>(VersionError::Violations)
            } else if !staged && s.merge_state is None {
                out == Err::<Seq<u8>, Fault>(VersionError::NothingToCommit)
            } else if !signed {
                out == Err::<Seq<u8>, Fault>(VersionError::InvalidAuthor)
            } else {
                out is Ok
            }
        }),
{
    let (t, out) = crate::staging::committed(s, msg, given, all, force);
    let u = if all {
        crate::staging::staged_with(s, s.unstaged)
    } else {
        s
    };
    if exists|x: Seq<char>| #[trigger] s.staged.contains(x) || (all && s.unstaged.contains(x)) {
        let x = choose|x: Seq<char>| #[trigger]
            s.staged.contains(x) || (all && s.unstaged.contains(x));
        assert(u.staged.contains(x));
        assert(u.staged != Set::<Seq<char>>::empty());
    } else {
        assert(u.staged =~= Set::<Seq<char>>::empty()) by {
            assert forall|x: Seq<char>| !#[trigger] u.staged.contains(x) by {
                assert(!s.staged.contains(x));
            }
        }
    }
}

/// A commit stands in the history as it was made: the message, the author that was given or
/// else configured, the time, and as parents the head before it and the other side of an
/// open merge. Every earlier commit stays as it was. The branch moves to it, and nothing is
/// staged or open any more; the working contents stay.
pub proof fn law_commit_stands_in_the_history(
    s: StoreModel,
    msg: Seq<char>,
    given: Option<(Seq<char>, Seq<char>)>,
    all: bool,
    force: bool,
    id: Seq<u8>,
    before: Option<Seq<u8>>,
)
    requires
        crate::staging::committed(s, msg, given, all, force).1 == Ok::<Seq<u8>, Fault>(id),
        is_head(s, before),
    ensures
        ({
            let t = crate::staging::committed(s, msg, given, all, force).0;
            let c = t.commits[id];
            &&& t.commits.dom().contains(id)
            &&& c.message == msg
            &&& c.timestamp == s.now
            &&& (given matches Some(a) ==> c.name == a.0 && c.email == a.1)
            &&& (given is None ==> c.name == s.config["user.name"@] && c.email
                == s.config["user.email"@])
            &&& c.parents.len() == (if before is Some {
                1int
            } else {
                0
            }) + (if s.merge_state is Some {
                1int
            } else {
                0
            })
            &&& (before matches Some(p) ==> c.parents[0] == p)
            &&& (s.merge_state matches Some(m) ==> c.parents.last() == m.theirs)
            &&& id == crate::commit::commit_id(c)
            &&& forall|k: Seq<u8>|
                k != id ==> (#[trigger] t.commits.dom().contains(k) <==> s.commits.dom().contains(
                    k,
                ))
            &&& forall|k: Seq<u8>| #[trigger]
                s.commits.dom().contains(k) && k != id ==> t.commits[k] == s.commits[k]
            &&& is_head(t, Some(id)) && t.head == s.head && t.detached is None
            &&& forall|r: (RefNs, Seq<char>)|
                r != (RefNs::Heads, s.head) ==> (#[trigger] t.refs.dom().contains(r)
                    <==> s.refs.dom().contains(r)) && (s.refs.dom().contains(r) ==> t.refs[r]
                    == s.refs[r])
            &&& t.staged == Set::<Seq<char>>::empty()
            &&& t.merge_state is None && t.violations.len() == 0 && t.conflicts.len() == 0
            &&& t.rebase_state == s.rebase_state
            &&& t.work == s.work && t.tables == s.tables && t.dirty_work == s.dirty_work
            &&& forall|x: Seq<char>| #[trigger]
                t.unstaged.contains(x) <==> s.unstaged.contains(x) && !all
            &&& same_remotes(s, t)
        }),
{
    let u = if all {
        crate::staging::staged_with(s, s.unstaged)
    } else {
        s
    };
    lemma_head(s, before);
    let author = crate::staging::author_of(u, given)->0;
    let c = crate::staging::new_commit(u, crate::staging::next_parents(u), author, msg);
    assert(id == crate::commit::commit_id(c));
    let t = crate::staging::committed(s, msg, given, all, force).0;
    assert(t.commits[id] == c);
    assert(crate::staging::head_of(u) == before);
}

/// A commit holds a table exactly if it was staged and is still in the working set, with
/// its working contents, or else if the commit before held it and it was not removed from
/// the working set, with the contents it had there.
pub proof fn law_commit_holds_the_staged_tables(
    s: StoreModel,
    msg: Seq<char>,
    given: Option<(Seq<char>, Seq<char>)>,
    all: bool,
    force: bool,
    id: Seq<u8>,
    before: Option<Seq<u8>>,
    table: Seq<char>,
)
    requires
        s.work.dom().finite(),
        crate::staging::head_tables(s).dom().finite(),
        crate::staging::committed(s, msg, given, all, force).1 == Ok::<Seq<u8>, Fault>(id),
        is_head(s, before),
        !s.snapshots.dom().contains(id),
    ensures
        ({
            let t = crate::staging::committed(s, msg, given, all, force).0;
            let staged = s.staged.contains(table) || (all && s.unstaged.contains(table));
            let here = s.work.dom().contains(table);
            let removed = s.tables.contains(table) && !here;
            if staged && here {
                held_at(t, Some(id), table, s.work[table])
            } else if has_at(s, before, table) && !removed {
                held_at(t, Some(id), table, s.snapshots[before->0][table])
            } else {
                !has_at(t, Some(id), table)
            }
        }),
{
    let u = if all {
        crate::staging::staged_with(s, s.unstaged)
    } else {
        s
    };
    lemma_head(s, before);
    assert(crate::staging::head_of(u) == before);
    assert(crate::staging::head_tables(u) == crate::staging::head_tables(s));
    let parent = crate::staging::head_tables(u);
    let content = crate::staging::commit_tables(u, parent);
    let bound = s.work.dom().union(parent.dom());
    assert(content.dom().subset_of(bound));
    vstd::set_lib::lemma_set_subset_finite(bound, content.dom());
    crate::names::law_ordered(content.dom());
    let list = crate::names::ordered(content.dom());
    assert(list.skip(0) =~= list);
    assert(list.to_set().contains(table) == list.contains(table));
    crate::staging::lemma_record_list(
        s.snapshots,
        s.snap_index,
        id,
        content,
        list,
        0,
        table,
        id,
    );
    let t = crate::staging::committed(s, msg, given, all, force).0;
    let now = crate::remote_wire::tables_at(t.snapshots, id);
    assert(now.dom().contains(table) == has_at(t, Some(id), table));
}

/// Unstaging leaves every change where it was, none of them staged.
pub proof fn law_soft_reset_unstages(s: StoreModel)
    requires
        s.detached is None,
    ensures
        ({
            let (t, out) = crate::staging::soft_reset(s);
            &&& out is Ok
            &&& same_history(s, t)
            &&& same_open_work(s, t)
            &&& t.tables == s.tables && t.work == s.work && t.dirty_work == s.dirty_work
            &&& forall|x: Seq<char>| !#[trigger] t.staged.contains(x)
            &&& forall|x: Seq<char>| #[trigger]
                t.unstaged.contains(x) <==> s.unstaged.contains(x) || s.staged.contains(x)
        }),
{
}

/// After a hard reset the working set is what the head holds, nothing is changed or open,
/// and the history stays. Every table that was or is in the working set is to be written.
pub proof fn law_hard_reset_restores_the_head(s: StoreModel, at: Option<Seq<u8>>, table: Seq<char>)
    requires
        s.detached is None,
        is_head(s, at),
    ensures
        ({
            let (t, out) = crate::staging::hard_reset(s);
            &&& out is Ok
            &&& same_history(s, t)
            &&& t.work.dom().contains(table) <==> has_at(s, at, table)
            &&& has_at(s, at, table) ==> held_at(s, at, table, t.work[table])
            &&& !t.staged.contains(table) && !t.unstaged.contains(table)
            &&& t.conflicts.len() == 0 && t.violations.len() == 0 && t.merge_state is None
            &&& s.work.dom().contains(table) || t.work.dom().contains(table)
                || s.dirty_work.contains(table) <==> t.dirty_work.contains(table)
            &&& s.tables.contains(table) ==> t.tables.contains(table)
        }),
{
    lemma_head(s, at);
    let tables = crate::staging::head_tables(s);
    lemma_with_names(s.tables, crate::names::ordered(tables.dom()), 0, table);
}

proof fn lemma_with_names(tables: Seq<Seq<char>>, list: Seq<Seq<char>>, i: int, table: Seq<char>)
    requires
        0 <= i,
    ensures
        crate::staging::with_names(tables, list, i).contains(table) <==> tables.contains(table)
            || exists|k: int| i <= k < list.len() && #[trigger] list[k] == table,
    decreases list.len() - i,
{
    if i < list.len() {
        if tables.contains(list[i]) {
            lemma_with_names(tables, list, i + 1, table);
        } else {
            let more = tables.push(list[i]);
            lemma_with_names(more, list, i + 1, table);
            assert(more[tables.len() as int] == list[i]);
            if tables.contains(table) {
                let k = choose|k: int| 0 <= k < tables.len() && tables[k] == table;
                assert(more[k] == table);
            }
            if more.contains(table) && !tables.contains(table) {
                let k = choose|k: int| 0 <= k < more.len() && more[k] == table;
                assert(k == tables.len());
            }
        }
    }
}

/// Bringing the working set to the head gives it what the head holds, and leaves stage and
/// history alone.
pub proof fn law_sync_takes_the_head(s: StoreModel, at: Option<Seq<u8>>, table: Seq<char>)
    requires
        is_head(s, at),
        crate::staging::head_tables(s).dom().finite(),
    ensures
        ({
            let t = crate::staging::synced(s);
            &&& same_history(s, t)
            &&& same_open_work(s, t)
            &&& t.staged == s.staged && t.unstaged == s.unstaged
            &&& t.work.dom().contains(table) <==> has_at(s, at, table)
            &&& has_at(s, at, table) ==> held_at(s, at, table, t.work[table])
            &&& t.tables.contains(table) <==> s.tables.contains(table) || has_at(s, at, table)
            &&& t.dirty_work.contains(table) <==> s.dirty_work.contains(table)
                || s.work.dom().contains(table) || has_at(s, at, table)
        }),
{
    lemma_head(s, at);
    let tables = crate::staging::head_tables(s);
    let list = crate::names::ordered(tables.dom());
    crate::names::law_ordered(tables.dom());
    lemma_with_names(s.tables, list, 0, table);
    assert(list.to_set().contains(table) <==> exists|k: int|
        0 <= k < list.len() && #[trigger] list[k] == table) by {
        if list.to_set().contains(table) {
            let k = choose|k: int| 0 <= k < list.len() && list[k] == table;
            assert(list[k] == table);
        }
    }
}

/// Cleaning removes exactly the tables that are changed, not staged and never committed,
/// contents and all; every other table stays as it was.
pub proof fn law_clean_removes_strays(s: StoreModel, at: Option<Seq<u8>>, table: Seq<char>)
    requires
        is_head(s, at),
    ensures
        ({
            let t = crate::staging::cleaned(s);
            let stray = s.unstaged.contains(table) && !has_at(s, at, table);
            &&& same_history(s, t)
            &&& same_open_work(s, t)
            &&& t.staged == s.staged
            &&& t.unstaged.contains(table) <==> s.unstaged.contains(table) && !stray
            &&& t.tables.contains(table) <==> s.tables.contains(table) && !stray
            &&& t.work.dom().contains(table) <==> s.work.dom().contains(table) && !stray
            &&& t.work.dom().contains(table) ==> t.work[table] == s.work[table]
            &&& t.dirty_work.contains(table) <==> s.dirty_work.contains(table) || stray
        }),
{
    lemma_head(s, at);
    let p = |t: Seq<char>| !crate::staging::strays(s).contains(t);
    crate::creds::lemma_filter_distinct(s.tables, p);
}

/// A new branch starts at the head; every other branch and tag, and the working state, stay.
/// A name that is taken is refused.
pub proof fn law_new_branch_starts_at_the_head(
    s: StoreModel,
    name: Seq<char>,
    at: Option<Seq<u8>>,
    other: (RefNs, Seq<char>),
)
    requires
        s.detached is None,
        is_head(s, at),
    ensures
        ({
            let (t, out) = crate::staging::branched(s, name);
            if s.branches.contains(name) || s.refs.dom().contains((RefNs::Heads, name)) {
                &&& t == s
                &&& out == Err::<(), Fault>(VersionError::BranchAlreadyExists(name))
            } else {
                &&& out is Ok
                &&& crate::merge::lookup(t.refs, (RefNs::Heads, name)) == at
                &&& t.branches.contains(name)
                &&& other != (RefNs::Heads, name) ==> crate::merge::lookup(t.refs, other)
                    == crate::merge::lookup(s.refs, other)
                &&& other.1 != name ==> (t.branches.contains(other.1) <==> s.branches.contains(
                    other.1,
                ))
                &&& t.head == s.head && t.detached == s.detached
                &&& t.commits == s.commits && t.snapshots == s.snapshots
                &&& same_working_state(s, t)
                &&& same_remotes(s, t)
            }
        }),
{
    lemma_head(s, at);
}

/// A deleted branch is gone; every other branch and tag, every commit and the working state
/// stay. A name that is no branch is refused.
pub proof fn law_deleted_branch_is_gone(s: StoreModel, name: Seq<char>, other: (RefNs, Seq<char>))
    requires
        s.detached is None,
    ensures
        ({
            let (t, out) = crate::staging::unbranched(s, name);
            if s.branches.contains(name) {
                &&& out is Ok
                &&& !t.branches.contains(name) && !t.refs.dom().contains((RefNs::Heads, name))
                &&& other != (RefNs::Heads, name) ==> crate::merge::lookup(t.refs, other)
                    == crate::merge::lookup(s.refs, other)
                &&& other.1 != name ==> (t.branches.contains(other.1) <==> s.branches.contains(
                    other.1,
                ))
                &&& t.head == s.head && t.detached == s.detached
                &&& t.commits == s.commits && t.snapshots == s.snapshots
                &&& same_working_state(s, t)
                &&& same_remotes(s, t)
            } else {
                t == s && out == Err::<(), Fault>(VersionError::BranchNotFound(name))
            }
        }),
{
}

/// A tag names the commit that it was set at, until it is set or deleted again; branches,
/// other tags and the working state stay.
pub proof fn law_tag_names_its_commit(
    s: StoreModel,
    name: Seq<char>,
    at: Seq<u8>,
    other: (RefNs, Seq<char>),
)
    requires
        s.detached is None,
        other != (RefNs::Tags, name),
    ensures
        ({
            let (t, out) = crate::staging::tagged(s, name, at);
            &&& out is Ok
            &&& crate::merge::lookup(t.refs, (RefNs::Tags, name)) == Some(at)
            &&& crate::merge::lookup(t.refs, other) == crate::merge::lookup(s.refs, other)
            &&& t.branches == s.branches && t.head == s.head && t.detached == s.detached
            &&& t.commits == s.commits && t.snapshots == s.snapshots
            &&& same_working_state(s, t)
            &&& same_remotes(s, t)
        }),
        ({
            let (t, out) = crate::staging::untagged(s, name);
            if s.refs.dom().contains((RefNs::Tags, name)) {
                &&& out is Ok
                &&& !t.refs.dom().contains((RefNs::Tags, name))
                &&& crate::merge::lookup(t.refs, other) == crate::merge::lookup(s.refs, other)
                &&& t.branches == s.branches && t.head == s.head && t.detached == s.detached
                &&& t.commits == s.commits && t.snapshots == s.snapshots
                &&& same_working_state(s, t)
                &&& same_remotes(s, t)
            } else {
                t == s && out == Err::<(), Fault>(VersionError::TagNotFound(name))
            }
        }),
{
}

/// Switching to a branch puts the head on its tip and changes nothing else. It is refused
/// during a merge, a rebase or with conflicts, and for a name that is no branch.
pub proof fn law_checkout_moves_the_head(s: StoreModel, name: Seq<char>)
    ensures
        ({
            let (t, out) = crate::staging::checked_out(s, name);
            if s.merge_state is Some {
                t == s && out == Err::<(), Fault>(VersionError::MergeInProgress)
            } else if s.rebase_state is Some {
                t == s && out == Err::<(), Fault>(VersionError::RebaseInProgress)
            } else if s.conflicts.len() > 0 {
                t == s && out == Err::<(), Fault>(VersionError::MergeInProgress)
            } else if !s.branches.contains(name) {
                t == s && out == Err::<(), Fault>(VersionError::BranchNotFound(name))
            } else {
                &&& out is Ok
                &&& t.head == name && t.detached is None
                &&& is_head(t, crate::merge::lookup(s.refs, (RefNs::Heads, name)))
                &&& t.refs == s.refs && t.branches == s.branches
                &&& t.commits == s.commits && t.snapshots == s.snapshots
                &&& same_working_state(s, t)
                &&& same_remotes(s, t)
            }
        }),
{
}

/// Setting the contents of a table gives it these contents, makes it a change if it is
/// tracked and not staged, and touches no other table and no history.
pub proof fn law_work_is_what_was_set(
    s: StoreModel,
    name: Seq<char>,
    snap: SnapModel,
    other: Seq<char>,
)
    requires
        other != name,
    ensures
        ({
            let t = crate::staging::worked(s, name, snap);
            &&& t.work.dom().contains(name) && t.work[name] == snap
            &&& crate::merge::lookup(t.work, other) == crate::merge::lookup(s.work, other)
            &&& t.unstaged.contains(name) <==> s.unstaged.contains(name) || (s.tables.contains(
                name,
            ) && !s.staged.contains(name))
            &&& t.unstaged.contains(other) <==> s.unstaged.contains(other)
            &&& t.staged == s.staged && t.tables == s.tables && t.dirty_work == s.dirty_work
            &&& same_history(s, t)
            &&& same_open_work(s, t)
        }),
        ({
            let t = crate::staging::with_table(s, name);
            &&& t.tables.contains(name) && t.unstaged.contains(name)
            &&& t.tables.contains(other) <==> s.tables.contains(other)
            &&& t.unstaged.contains(other) <==> s.unstaged.contains(other)
            &&& t.staged == s.staged && t.work == s.work && t.dirty_work == s.dirty_work
            &&& same_history(s, t)
            &&& same_open_work(s, t)
        }),
{
    let t = crate::staging::with_table(s, name);
    if !s.tables.contains(name) {
        let more = s.tables.push(name);
        assert(more[s.tables.len() as int] == name);
        if s.tables.contains(other) {
            let k = choose|k: int| 0 <= k < s.tables.len() && s.tables[k] == other;
            assert(more[k] == other);
        }
        if more.contains(other) {
            let k = choose|k: int| 0 <= k < more.len() && more[k] == other;
            assert(s.tables[k] == other);
        }
    }
}

/// The status tells of each staged table whether it is new, gone or modified against the
/// head, of each other changed table that it is modified, and of nothing else.
pub proof fn law_status_tells_every_change(s: StoreModel, at: Option<Seq<u8>>, line: StatusModel)
    requires
        is_head(s, at),
        s.staged.finite() && s.unstaged.finite(),
    ensures
        crate::staging::status_of(s).contains(line) <==> if line.staged {
            s.staged.contains(line.table) && line.status == if !has_at(s, at, line.table) {
                TableState::New
            } else if !s.work.dom().contains(line.table) {
                TableState::Deleted
            } else {
                TableState::Modified
            }
        } else {
            s.unstaged.contains(line.table) && line.status == TableState::Modified
        },
{
    lemma_head(s, at);
    let all = s.staged.union(s.unstaged);
    let list = crate::names::ordered(all);
    crate::names::law_ordered(all);
    let f = crate::staging::line_at(s, list);
    crate::constraints::lemma_gather_contains(list.len() as int, f, line);
    assert forall|t: Seq<char>| #[trigger] crate::staging::lines_of(s, t).contains(line) <==> {
        ||| s.staged.contains(t) && line == crate::staging::staged_line(s, t)
        ||| s.unstaged.contains(t) && line == (StatusModel {
            table: t,
            staged: false,
            status: TableState::Modified,
        })
    } by {
        let a = crate::constraints::flag(s.staged.contains(t), crate::staging::staged_line(s, t));
        let x = StatusModel { table: t, staged: false, status: TableState::Modified };
        let b = crate::constraints::flag(s.unstaged.contains(t), x);
        let l = crate::staging::lines_of(s, t);
        assert(l == a + b);
        if l.contains(line) {
            let k = choose|k: int| 0 <= k < l.len() && l[k] == line;
        }
        if s.staged.contains(t) {
            assert(l[0] == crate::staging::staged_line(s, t));
        }
        if s.unstaged.contains(t) {
            assert(l[a.len() as int] == x);
        }
    }
    let t = line.table;
    if all.contains(t) {
        assert(list.to_set().contains(t));
        let k = choose|k: int| 0 <= k < list.len() && list[k] == t;
        assert(f(k) == crate::staging::lines_of(s, t));
    }
}

/// The lines of the status come by table name, and those of one table staged first.
pub proof fn law_status_is_in_order(s: StoreModel, i: int, j: int)
    requires
        s.staged.finite() && s.unstaged.finite(),
        0 <= i < j < crate::staging::status_of(s).len(),
    ensures
        ({
            let a = crate::staging::status_of(s)[i];
            let b = crate::staging::status_of(s)[j];
            crate::text::text_lt(a.table, b.table) || (a.table == b.table && a.staged && !b.staged)
        }),
{
    let all = s.staged.union(s.unstaged);
    let list = crate::names::ordered(all);
    crate::names::law_ordered(all);
    lemma_status_order(s, list, list.len() as int, i, j);
}

proof fn lemma_status_order(s: StoreModel, list: Seq<Seq<char>>, n: int, i: int, j: int)
    requires
        0 <= n <= list.len(),
        crate::text::texts_sorted(list),
        0 <= i < j < crate::constraints::gather(n, crate::staging::line_at(s, list)).len(),
    ensures
        ({
            let l = crate::constraints::gather(n, crate::staging::line_at(s, list));
            crate::text::text_lt(l[i].table, l[j].table) || (l[i].table == l[j].table && l[i].staged
                && !l[j].staged)
        }),
    decreases n,
{
    let f = crate::staging::line_at(s, list);
    let l = crate::constraints::gather(n, f);
    if n > 0 {
        let d = crate::constraints::gather(n - 1, f);
        assert(l == d + f(n - 1));
        if j < d.len() {
            lemma_status_order(s, list, n - 1, i, j);
        } else if i < d.len() {
            assert(d.contains(d[i]));
            crate::constraints::lemma_gather_contains(n - 1, f, d[i]);
            let k = choose|k: int| 0 <= k < n - 1 && (#[trigger] f(k)).contains(d[i]);
            let own = f(k);
            let m = choose|m: int| 0 <= m < own.len() && own[m] == d[i];
            assert(d[i].table == list[k]);
            assert(l[j].table == list[n - 1]);
            assert(crate::text::text_lt(list[k], list[n - 1]));
        } else {
            assert(i == d.len() && j == d.len() + 1);
        }
    }
}

} // verus!
