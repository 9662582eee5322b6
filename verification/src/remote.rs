//! Remote commands: remotes, push, fetch, pull and clone.
//!
//! Objects go to a remote before any of its branches moves, and what comes from a
//! remote is checked against its id before it is stored.

use vstd::prelude::*;

use crate::assoc::AssocMap;
use crate::commit::{encode_v2, is_ancestor, CommitModel, CommitStore, Graph};
use crate::model::{CommitId, VersionError, VersionResult};
use crate::names::sorted_keys;
use crate::refs::{RefName, RefNs, RefStore};
use crate::remote_transport::{ListModel, ObjectModel, RemoteTransport};
use crate::remote_wire::{
    decode_refs, decode_snapshot_record, encode_snapshot_record, store_object, SnapshotId,
    SourceId, SourceModel, SYNC_BATCH_SIZE,
};
use crate::replay::{MergeResult, ResultModel};
pub use crate::staging::RemoteConfig;
use crate::staging::{SnapModel, StoreModel, VcStore};
use crate::table_merge::Fault;
use crate::text::{cat2, cat3, has_char, str_eq, trim, Dup};
use crate::walk::{Readings, Walk};

verus! {

broadcast use crate::text::lemma_bytes_deep_view;

// ---------------------------------------------------------------------------
// Remotes
// ---------------------------------------------------------------------------

/// The name of a remote without the white space around it; none where it is empty
/// or holds a slash.
pub open spec fn remote_name(raw: Seq<char>) -> Option<Seq<char>> {
    let name = crate::text::trimmed(raw);
    if name.len() == 0 || name.contains('/') {
        None
    } else {
        Some(name)
    }
}

/// The name of a remote without the white space around it. Empty names and names
/// with a slash are refused.
pub fn normalize_remote_name(raw: &str) -> (r: VersionResult<String>)
    ensures
        match remote_name(raw@) {
            Some(n) => r matches Ok(x) && x@ == n,
            None => r matches Err(e) && e is RemoteNameInvalid,
        },
{
    let name = trim(raw);
    if name.as_str().is_empty() || has_char(name.as_str(), '/') {
        return Err(VersionError::RemoteNameInvalid);
    }
    Ok(name)
}

/// The place of a remote.
pub open spec fn remote_at(remotes: Seq<(Seq<char>, Seq<char>)>, name: Seq<char>) -> Option<int>
    decreases remotes.len(),
{
    if remotes.len() == 0 {
        None
    } else {
        match remote_at(remotes.drop_last(), name) {
            Some(i) => Some(i),
            None => if remotes.last().0 == name {
                Some(remotes.len() - 1)
            } else {
                None
            },
        }
    }
}

/// The URL of a remote.
pub open spec fn url_of(s: StoreModel, name: Seq<char>) -> Option<Seq<char>> {
    match remote_at(s.remotes, name) {
        Some(i) => Some(s.remotes[i].1),
        None => None,
    }
}

/// Add a remote.
pub open spec fn remote_added(s: StoreModel, raw: Seq<char>, url: Seq<char>) -> (
    StoreModel,
    Result<(), Fault>,
) {
    match remote_name(raw) {
        None => (s, Err(VersionError::RemoteNameInvalid)),
        Some(name) => if remote_at(s.remotes, name) is Some {
            (s, Err(VersionError::RemoteAlreadyExists))
        } else {
            (StoreModel { remotes: s.remotes.push((name, url)), ..s }, Ok(()))
        },
    }
}

/// Does an entry belong to another remote?
pub open spec fn of_another(name: Seq<char>) -> spec_fn((Seq<char>, Seq<char>)) -> bool {
    |e: (Seq<char>, Seq<char>)| e.0 != name
}

/// Remove a remote, and with it what is known of its branches.
pub open spec fn remote_removed(s: StoreModel, raw: Seq<char>) -> (StoreModel, Result<(), Fault>) {
    match remote_name(raw) {
        None => (s, Err(VersionError::RemoteNameInvalid)),
        Some(name) => if remote_at(s.remotes, name) is None {
            (s, Err(VersionError::RemoteNotFound))
        } else {
            (
                StoreModel {
                    remotes: s.remotes.filter(of_another(name)),
                    tracking: s.tracking.restrict(Set::new(of_another(name))),
                    ..s
                },
                Ok(()),
            )
        },
    }
}

fn find_remote(remotes: &Vec<RemoteConfig>, name: &str) -> (r: Option<usize>)
    ensures
        match remote_at(remotes.deep_view(), name@) {
            Some(i) => r matches Some(k) && k == i && k < remotes@.len(),
            None => r is None,
        },
{
    let ghost b = remotes.deep_view();
    let mut i: usize = 0;
    assert(b.take(0) =~= seq![]);
    while i < remotes.len()
        invariant
            i <= remotes@.len(),
            b == remotes.deep_view(),
            remote_at(b.take(i as int), name@) is None,
        decreases remotes.len() - i,
    {
        proof {
            assert(b.take(i + 1).drop_last() =~= b.take(i as int));
            assert(b.take(i + 1).last() == remotes@[i as int].deep_view());
        }
        if str_eq(remotes[i].name.as_str(), name) {
            proof {
                lemma_remote_at_prefix(b, name@, i + 1);
            }
            return Some(i);
        }
        i = i + 1;
    }
    assert(b.take(i as int) =~= b);
    None
}

proof fn lemma_remote_at_prefix(b: Seq<(Seq<char>, Seq<char>)>, name: Seq<char>, n: int)
    requires
        0 <= n <= b.len(),
        remote_at(b.take(n), name) is Some,
    ensures
        remote_at(b, name) == remote_at(b.take(n), name),
    decreases b.len() - n,
{
    if n == b.len() {
        assert(b.take(n) =~= b);
    } else {
        assert(b.take(n + 1).drop_last() =~= b.take(n));
        lemma_remote_at_prefix(b, name, n + 1);
    }
}

fn other_remotes(remotes: &Vec<RemoteConfig>, name: &str) -> (r: Vec<RemoteConfig>)
    ensures
        r.deep_view() == remotes.deep_view().filter(of_another(name@)),
{
    let ghost s = remotes.deep_view();
    let ghost p = of_another(name@);
    let mut out: Vec<RemoteConfig> = Vec::new();
    let mut i: usize = 0;
    proof {
        reveal(Seq::filter);
        assert(s.take(0).filter(p) =~= seq![]);
        assert(out.deep_view() =~= seq![]);
    }
    while i < remotes.len()
        invariant
            i <= remotes@.len(),
            s == remotes.deep_view(),
            p == of_another(name@),
            out.deep_view() == s.take(i as int).filter(p),
        decreases remotes.len() - i,
    {
        proof {
            reveal(Seq::filter);
            assert(s.take(i + 1).drop_last() =~= s.take(i as int));
            assert(s.take(i + 1).last() == remotes@[i as int].deep_view());
        }
        let ghost before = out.deep_view();
        if !str_eq(remotes[i].name.as_str(), name) {
            out.push(remotes[i].dup());
            assert(out.deep_view() =~= before.push(s[i as int]));
        }
        i = i + 1;
    }
    assert(s.take(i as int) =~= s);
    out
}

fn forget_remote(tracking: &mut AssocMap<(String, String), CommitId>, name: &str)
    ensures
        final(tracking).deep_view() == old(tracking).deep_view().restrict(
            Set::new(of_another(name@)),
        ),
{
    let ghost m = tracking.deep_view();
    let ghost keep = Set::new(of_another(name@));
    let list = tracking.keys();
    let ghost l = list.deep_view();
    let mut i: usize = 0;
    while i < list.len()
        invariant
            i <= list@.len(),
            l == list.deep_view(),
            keep == Set::new(of_another(name@)),
            forall|x: (Seq<char>, Seq<char>)| #[trigger]
                tracking.deep_view().dom().contains(x) ==> m.dom().contains(x)
                    && tracking.deep_view()[x] == m[x],
            forall|x: (Seq<char>, Seq<char>)| #[trigger]
                m.dom().contains(x) && keep.contains(x) ==> tracking.deep_view().dom().contains(x),
            forall|j: int|
                0 <= j < i && tracking.deep_view().dom().contains(#[trigger] l[j])
                    ==> keep.contains(l[j]),
        decreases list.len() - i,
    {
        assert(l[i as int] == list@[i as int].deep_view());
        if str_eq(list[i].0.as_str(), name) {
            tracking.remove(&list[i]);
        }
        i = i + 1;
    }
    proof {
        assert forall|x: (Seq<char>, Seq<char>)| #[trigger] tracking.deep_view().dom().contains(
            x,
        ) implies keep.contains(x) by {
            assert(l.to_set().contains(x));
            let j = choose|j: int| 0 <= j < l.len() && l[j] == x;
            assert(tracking.deep_view().dom().contains(l[j]));
        }
        assert(tracking.deep_view() =~= m.restrict(keep));
    }
}

// ---------------------------------------------------------------------------
// What a tip needs
// ---------------------------------------------------------------------------

/// What reading each commit of a repository gives.
pub open spec fn commit_readings(g: Graph) -> Readings {
    g.map_values(|c: CommitModel| Ok::<Seq<Seq<u8>>, Fault>(c.parents))
}

/// A commit that a repository lacks.
pub open spec fn lacked() -> spec_fn(Seq<u8>) -> Fault {
    |c: Seq<u8>| crate::commit::missing(c)
}

/// The object of a snapshot.
pub open spec fn snap_object(owner: Seq<u8>, table: Seq<char>, snap: SnapModel) -> ObjectModel {
    (
        SourceId::Snapshot(crate::remote_wire::record_id(owner, table, snap)),
        crate::remote_wire::record_bytes(owner, table, snap),
    )
}

/// The objects of the snapshots of a commit, by table.
pub open spec fn snap_objects(s: StoreModel, c: Seq<u8>) -> Seq<ObjectModel> {
    let tables = crate::remote_wire::tables_at(s.snapshots, c);
    crate::names::ordered(tables.dom()).map_values(
        |t: Seq<char>| snap_object(c, t, tables[t]),
    )
}

/// The objects of commits: each commit and its snapshots.
pub open spec fn objects_of(s: StoreModel, commits: Seq<Seq<u8>>) -> Seq<ObjectModel>
    decreases commits.len(),
{
    if commits.len() == 0 {
        seq![]
    } else {
        let c = commits.last();
        objects_of(s, commits.drop_last()).push(
            (SourceId::Commit(c), crate::commit::commit_bytes(s.commits[c])),
        ) + snap_objects(s, c)
    }
}

/// The snapshot lists of commits that have snapshots.
pub open spec fn lists_of(s: StoreModel, commits: Seq<Seq<u8>>) -> Seq<ListModel>
    decreases commits.len(),
{
    if commits.len() == 0 {
        seq![]
    } else {
        let c = commits.last();
        let before = lists_of(s, commits.drop_last());
        if s.snapshots.dom().contains(c) {
            before.push(
                (
                    c,
                    snap_objects(s, c).map_values(
                        |o: ObjectModel| crate::remote_wire::source_bytes(o.0),
                    ),
                ),
            )
        } else {
            before
        }
    }
}

/// The commits of a history, in the order of the walk.
pub open spec fn history_of(s: StoreModel, tip: Seq<u8>) -> Result<Seq<Seq<u8>>, Fault> {
    crate::walk::history(commit_readings(s.commits), lacked(), tip)
}

/// The objects of a tip, and the snapshots of each commit.
struct Closure {
    objects: Vec<(SourceId, Vec<u8>)>,
    snap_lists: Vec<(CommitId, Vec<SnapshotId>)>,
}

fn add_snapshots(closure: &mut Closure, store: &VcStore, c: CommitId)
    ensures
        ({
            let s = store.deep_view();
            &&& final(closure).objects.deep_view() == old(closure).objects.deep_view()
                + snap_objects(s, c@)
            &&& final(closure).snap_lists.deep_view() == (if s.snapshots.dom().contains(c@) {
                old(closure).snap_lists.deep_view().push(
                    (
                        c@,
                        snap_objects(s, c@).map_values(
                            |o: ObjectModel| crate::remote_wire::source_bytes(o.0),
                        ),
                    ),
                )
            } else {
                old(closure).snap_lists.deep_view()
            })
        }),
{
    let ghost s = store.deep_view();
    let ghost all = snap_objects(s, c@);
    let ghost start = closure.objects.deep_view();
    match store.snapshots.get(&c) {
        None => {
            proof {
                assert(crate::remote_wire::tables_at(s.snapshots, c@).dom() =~= Set::empty());
                crate::names::law_ordered(Set::empty());
                let o = crate::names::ordered(Set::empty());
                if o.len() > 0 {
                    assert(o.to_set().contains(o[0]));
                }
                assert(start + all =~= start);
            }
        },
        Some(tables) => {
            let ghost tm = tables.deep_view();
            let names = sorted_keys(tables);
            let ghost list = names.deep_view();
            let mut ids: Vec<SnapshotId> = Vec::new();
            let mut i: usize = 0;
            assert(start + all.take(0) =~= start);
            while i < names.len()
                invariant
                    i <= names@.len(),
                    tm == tables.deep_view(),
                    list == names.deep_view(),
                    list.to_set() == tm.dom(),
                    all.len() == list.len(),
                    forall|j: int|
                        0 <= j < list.len() ==> #[trigger] all[j] == snap_object(
                            c@,
                            list[j],
                            tm[list[j]],
                        ),
                    closure.objects.deep_view() == start + all.take(i as int),
                    closure.snap_lists == old(closure).snap_lists,
                    ids@.len() == i,
                    forall|j: int|
                        0 <= j < i ==> (#[trigger] ids@[j])@ == crate::remote_wire::source_bytes(
                            all[j].0,
                        ),
                decreases names.len() - i,
            {
                let ghost before = closure.objects.deep_view();
                assert(list[i as int] == names@[i as int]@);
                assert(list.to_set().contains(list[i as int]));
                match tables.get(&names[i]) {
                    Some(snap) => {
                        let (id, bytes) = encode_snapshot_record(&c, names[i].as_str(), snap);
                        ids.push(id);
                        closure.objects.push((SourceId::Snapshot(id), bytes));
                        proof {
                            assert(closure.objects.deep_view() =~= before.push(all[i as int]));
                            assert(closure.objects.deep_view() =~= start + all.take(i + 1));
                        }
                    },
                    None => {},
                }
                i = i + 1;
            }
            let ghost lists = closure.snap_lists.deep_view();
            let ghost ids_model = all.map_values(
                |o: ObjectModel| crate::remote_wire::source_bytes(o.0),
            );
            assert(all.take(i as int) =~= all);
            assert(ids.deep_view() =~= ids_model);
            closure.snap_lists.push((c, ids));
            assert(closure.snap_lists.deep_view() =~= lists.push((c@, ids_model)));
        },
    }
}

// ---------------------------------------------------------------------------
// Push
// ---------------------------------------------------------------------------

/// The end of the batch that starts at `i`.
pub open spec fn batch_end(i: int, len: nat) -> int {
    if i + SYNC_BATCH_SIZE < len {
        i + SYNC_BATCH_SIZE
    } else {
        len as int
    }
}

/// The ids of objects.
pub open spec fn object_ids(objects: Seq<ObjectModel>) -> Seq<SourceModel> {
    objects.map_values(|o: ObjectModel| o.0)
}

/// Those of the first `n` objects that are not said to be there.
pub open spec fn absent(objects: Seq<ObjectModel>, present: Seq<bool>, n: int) -> Seq<ObjectModel>
    decreases n,
{
    if n <= 0 {
        seq![]
    } else if n - 1 < present.len() && present[n - 1] {
        absent(objects, present, n - 1)
    } else {
        absent(objects, present, n - 1).push(objects[n - 1])
    }
}

/// Send the objects from place `i` on, in batches: what the remote has already is not
/// sent again. The first refusal ends it.
pub open spec fn put_from<T: RemoteTransport>(
    t: T::State,
    objects: Seq<ObjectModel>,
    lists: Seq<ListModel>,
    i: int,
) -> (T::State, Result<(), Fault>)
    decreases objects.len() - i,
{
    if i >= objects.len() {
        (t, Ok(()))
    } else {
        let j = batch_end(i, objects.len());
        let part = objects.subrange(i, j);
        let (asked, said) = T::presence_said(t, object_ids(part));
        match said {
            Err(e) => (asked, Err(e)),
            Ok(present) => {
                let (next, out) = T::put_said(
                    asked,
                    absent(part, present, part.len() as int),
                    lists,
                );
                match out {
                    Err(e) => (next, Err(e)),
                    Ok(_) => put_from::<T>(next, objects, lists, j),
                }
            },
        }
    }
}

fn ids_in(objects: &Vec<(SourceId, Vec<u8>)>) -> (r: Vec<SourceId>)
    ensures
        r.deep_view() == object_ids(objects.deep_view()),
{
    let ghost all = objects.deep_view();
    let mut out: Vec<SourceId> = Vec::new();
    let mut i: usize = 0;
    while i < objects.len()
        invariant
            i <= objects@.len(),
            all == objects.deep_view(),
            out@.len() == i,
            forall|k: int| 0 <= k < i ==> (#[trigger] out@[k]).deep_view() == all[k].0,
        decreases objects.len() - i,
    {
        assert(all[i as int] == objects@[i as int].deep_view());
        out.push(objects[i].0);
        i = i + 1;
    }
    assert(out.deep_view() =~= object_ids(all));
    out
}

fn without_present(objects: &Vec<(SourceId, Vec<u8>)>, present: &Vec<bool>) -> (r: Vec<
    (SourceId, Vec<u8>),
>)
    ensures
        r.deep_view() == absent(objects.deep_view(), present@, objects@.len() as int),
{
    let ghost all = objects.deep_view();
    let mut out: Vec<(SourceId, Vec<u8>)> = Vec::new();
    let mut i: usize = 0;
    assert(out.deep_view() =~= seq![]);
    while i < objects.len()
        invariant
            i <= objects@.len(),
            all == objects.deep_view(),
            out.deep_view() == absent(all, present@, i as int),
        decreases objects.len() - i,
    {
        let ghost before = out.deep_view();
        assert(all[i as int] == objects@[i as int].deep_view());
        if !(i < present.len() && present[i]) {
            out.push(objects[i].dup());
            assert(out.deep_view() =~= before.push(all[i as int]));
        }
        i = i + 1;
    }
    out
}

/// Is a remote tip known to be in the history of a local tip?
pub open spec fn provable(s: StoreModel, remote_tip: Seq<u8>, tip: Seq<u8>) -> bool {
    s.commits.dom().contains(remote_tip) && crate::commit::ancestry(s.commits, remote_tip, tip)
        == Ok::<bool, Fault>(true)
}

/// May a push go on, given the remote's tip?
pub open spec fn may_push(s: StoreModel, remote_tip: Option<Seq<u8>>, tip: Seq<u8>, force: bool) -> bool {
    match remote_tip {
        None => true,
        Some(r) => force || r == tip || provable(s, r, tip),
    }
}

/// Send a tip and what the remote lacks of all it needs, then move the branch of the
/// remote.
pub open spec fn sent<T: RemoteTransport>(
    s: StoreModel,
    t: T::State,
    branch: Seq<char>,
    tip: Seq<u8>,
    force: bool,
) -> (T::State, Result<(), Fault>) {
    match history_of(s, tip) {
        Err(e) => (t, Err(e)),
        Ok(all) => {
            let (u, out) = put_from::<T>(t, objects_of(s, all), lists_of(s, all), 0);
            match out {
                Err(e) => (u, Err(e)),
                Ok(_) => T::update_said(u, branch, tip, force),
            }
        },
    }
}

/// Push a branch.
pub open spec fn pushed<T: RemoteTransport>(
    s: StoreModel,
    t: T::State,
    remote: Seq<char>,
    branch: Seq<char>,
    force: bool,
) -> (T::State, Result<(), Fault>) {
    if url_of(s, remote) is None {
        (t, Err(VersionError::RemoteNotFound))
    } else if !s.refs.dom().contains((RefNs::Heads, branch)) {
        (t, Err(VersionError::BranchNotFound(branch)))
    } else {
        let tip = s.refs[(RefNs::Heads, branch)];
        let (u, found) = T::branch_said(t, branch);
        match found {
            Err(e) => (u, Err(e)),
            Ok(remote_tip) => if may_push(s, remote_tip, tip, force) {
                sent::<T>(s, u, branch, tip, force)
            } else {
                (u, Err(VersionError::PushNotFastForward))
            },
        }
    }
}

// ---------------------------------------------------------------------------
// Fetch
// ---------------------------------------------------------------------------

/// Does a repository hold an object?
pub open spec fn holds(s: StoreModel, id: SourceModel) -> bool {
    match id {
        SourceId::Commit(c) => s.commits.dom().contains(c),
        SourceId::Snapshot(x) => s.snap_index.dom().contains(x),
    }
}

/// Store an object once it is verified.
#[verifier::opaque]
pub open spec fn object_stored(s: StoreModel, id: SourceModel, bytes: Seq<u8>) -> (
    StoreModel,
    Result<(), Fault>,
) {
    match crate::remote_wire::stored(s.commits, s.snapshots, id, bytes) {
        Err(e) => (s, Err(e)),
        Ok((commits, snapshots)) => {
            let snap_index = match id {
                SourceId::Commit(_) => s.snap_index,
                SourceId::Snapshot(x) => {
                    let (owner, table, _) = crate::remote_wire::read_record(bytes)->0;
                    s.snap_index.insert(x, (owner, table))
                },
            };
            (StoreModel { commits, snapshots, snap_index, ..s }, Ok(()))
        },
    }
}

/// Store objects from place `i` on; the first that is refused ends it.
pub open spec fn store_from(s: StoreModel, objects: Seq<ObjectModel>, i: int) -> (
    StoreModel,
    Result<(), Fault>,
)
    decreases objects.len() - i,
{
    if i >= objects.len() {
        (s, Ok(()))
    } else {
        let (next, out) = object_stored(s, objects[i].0, objects[i].1);
        match out {
            Err(e) => (next, Err(e)),
            Ok(_) => store_from(next, objects, i + 1),
        }
    }
}

/// A repository and a remote after a transfer, and how it went.
pub type Transfer<S> = (StoreModel, S, Result<(), Fault>);

/// Get and store objects from place `i` on, in batches.
pub open spec fn get_from<T: RemoteTransport>(
    s: StoreModel,
    t: T::State,
    ids: Seq<SourceModel>,
    i: int,
) -> Transfer<T::State>
    decreases ids.len() - i,
{
    if i >= ids.len() {
        (s, t, Ok(()))
    } else {
        let j = batch_end(i, ids.len());
        let (u, out) = T::batch_said(t, ids.subrange(i, j));
        match out {
            Err(e) => (s, u, Err(e)),
            Ok(objects) => {
                let (next, put) = store_from(s, objects, 0);
                match put {
                    Err(e) => (next, u, Err(e)),
                    Ok(_) => get_from::<T>(next, u, ids, j),
                }
            },
        }
    }
}

/// Get all that a tip needs and the repository lacks.
#[verifier::opaque]
pub open spec fn closure_fetched<T: RemoteTransport>(s: StoreModel, t: T::State, tip: Seq<u8>) -> Transfer<
    T::State,
> {
    let (u, out) = T::walk_said(t, tip);
    match out {
        Err(e) => (s, u, Err(e)),
        Ok(ids) => get_from::<T>(s, u, ids.filter(|id: SourceModel| !holds(s, id)), 0),
    }
}

/// Fetch a branch: get what its tip needs, then note the tip.
pub open spec fn fetched<T: RemoteTransport>(
    s: StoreModel,
    t: T::State,
    remote: Seq<char>,
    branch: Seq<char>,
) -> Transfer<T::State> {
    if url_of(s, remote) is None {
        (s, t, Err(VersionError::RemoteNotFound))
    } else {
        let (u, found) = T::branch_said(t, branch);
        match found {
            Err(e) => (s, u, Err(e)),
            Ok(None) => (s, u, Err(VersionError::FetchBranchNotFound)),
            Ok(Some(tip)) => {
                let (next, v, out) = closure_fetched::<T>(s, u, tip);
                match out {
                    Err(e) => (next, v, Err(e)),
                    Ok(_) => (
                        StoreModel {
                            tracking: next.tracking.insert((remote, branch), tip),
                            ..next
                        },
                        v,
                        Ok(()),
                    ),
                }
            },
        }
    }
}

// ---------------------------------------------------------------------------
// Pull
// ---------------------------------------------------------------------------

/// What a pull did, over the type of a merge result.
#[derive(Debug, PartialEq)]
pub enum PullOutcome<R = MergeResult> {
    /// The branch already was at the remote's tip.
    UpToDate,
    /// The branch moved forward to the remote's tip.
    FastForwarded,
    /// The branches had parted and were merged.
    Merged(R),
}

impl DeepView for PullOutcome {
    type V = PullOutcome<ResultModel>;

    open spec fn deep_view(&self) -> PullOutcome<ResultModel> {
        match *self {
            PullOutcome::UpToDate => PullOutcome::UpToDate,
            PullOutcome::FastForwarded => PullOutcome::FastForwarded,
            PullOutcome::Merged(r) => PullOutcome::Merged(r.deep_view()),
        }
    }
}

/// Is a local branch behind a remote tip?
pub open spec fn is_behind(s: StoreModel, local: Option<Seq<u8>>, tip: Seq<u8>) -> Result<bool, Fault> {
    match local {
        None => Ok(true),
        Some(l) => crate::commit::ancestry(s.commits, l, tip),
    }
}

/// Is a branch the current one?
pub open spec fn is_current(s: StoreModel, branch: Seq<char>) -> bool {
    s.detached is None && s.head == branch
}

/// Move a branch forward; the working set of the current branch follows.
pub open spec fn forwarded(s: StoreModel, branch: Seq<char>, tip: Seq<u8>) -> StoreModel {
    let t = StoreModel {
        refs: s.refs.insert((RefNs::Heads, branch), tip),
        branches: s.branches.insert(branch),
        ..s
    };
    if is_current(s, branch) {
        crate::staging::synced(t)
    } else {
        t
    }
}

/// Bring a branch to the tip that was fetched for it.
pub open spec fn caught_up(s: StoreModel, remote: Seq<char>, branch: Seq<char>) -> (
    StoreModel,
    Result<PullOutcome<ResultModel>, Fault>,
) {
    if !s.tracking.dom().contains((remote, branch)) {
        (s, Err(VersionError::TrackingNotFoundAfterFetch))
    } else if crate::staging::uncommitted(s) {
        (s, Err(VersionError::PullUncommittedChanges))
    } else {
        let tip = s.tracking[(remote, branch)];
        let local = crate::merge::lookup(s.refs, (RefNs::Heads, branch));
        if local == Some(tip) {
            (s, Ok(PullOutcome::UpToDate))
        } else {
            match is_behind(s, local, tip) {
                Err(e) => (s, Err(e)),
                Ok(true) => (forwarded(s, branch, tip), Ok(PullOutcome::FastForwarded)),
                Ok(false) => if !is_current(s, branch) {
                    (s, Err(VersionError::PullNonCurrentNotFastForward))
                } else if s.lazy_origin is Some {
                    (s, Err(VersionError::PullLazyNonFF))
                } else {
                    let (t, out) = crate::replay::merge_run(
                        s,
                        "remotes/"@ + remote + "/"@ + branch,
                        false,
                        false,
                        None,
                    );
                    match out {
                        Ok(m) => (t, Ok(PullOutcome::Merged(m))),
                        Err(e) => (t, Err(e)),
                    }
                },
            }
        }
    }
}

/// Pull a branch: fetch it, then catch up.
pub open spec fn pulled<T: RemoteTransport>(
    s: StoreModel,
    t: T::State,
    remote: Seq<char>,
    branch: Seq<char>,
) -> (StoreModel, T::State, Result<PullOutcome<ResultModel>, Fault>) {
    let (next, u, out) = fetched::<T>(s, t, remote, branch);
    match out {
        Err(e) => (next, u, Err(e)),
        Ok(_) => {
            let (after, done) = caught_up(next, remote, branch);
            (after, u, done)
        },
    }
}

// ---------------------------------------------------------------------------
// Clone
// ---------------------------------------------------------------------------

/// Is a repository empty enough to clone into?
pub open spec fn is_fresh(s: StoreModel) -> bool {
    s.commits.dom().len() == 0 && s.remotes.len() == 0 && s.tables.len() == 0
}

/// A branch as a clone has it: local and as the remote's tip.
pub open spec fn branch_cloned(s: StoreModel, name: Seq<char>, tip: Seq<u8>) -> StoreModel {
    StoreModel {
        refs: s.refs.insert((RefNs::Heads, name), tip),
        branches: s.branches.insert(name),
        tracking: s.tracking.insert(("origin"@, name), tip),
        ..s
    }
}

/// Note which objects a tip needs, as the remote names them; their bytes stay
/// there.
pub open spec fn catalog_noted<T: RemoteTransport>(s: StoreModel, t: T::State, tip: Seq<u8>) -> Transfer<
    T::State,
> {
    let (u, out) = T::walk_said(t, tip);
    match out {
        Err(e) => (s, u, Err(e)),
        Ok(ids) => (
            StoreModel { lazy_catalog: s.lazy_catalog.insert(tip, ids), ..s },
            u,
            Ok(()),
        ),
    }
}

/// Take over branches from place `i` on, with what their tips need, or, where
/// the clone is lazy, with the names of it.
pub open spec fn clone_from<T: RemoteTransport>(
    s: StoreModel,
    t: T::State,
    branches: Seq<(Seq<char>, Seq<u8>)>,
    lazy: bool,
    i: int,
) -> Transfer<T::State>
    decreases branches.len() - i,
{
    if i >= branches.len() {
        (s, t, Ok(()))
    } else {
        let (name, tip) = branches[i];
        let (next, u, out) = if lazy {
            catalog_noted::<T>(s, t, tip)
        } else {
            closure_fetched::<T>(s, t, tip)
        };
        match out {
            Err(e) => (next, u, Err(e)),
            Ok(_) => clone_from::<T>(branch_cloned(next, name, tip), u, branches, lazy, i + 1),
        }
    }
}

/// A clone that has its branches: the remote is its origin, and the working set
/// is the head's, or is left to the origin.
pub open spec fn clone_done(s: StoreModel, default_branch: Seq<char>, url: Seq<char>, lazy: bool) -> StoreModel {
    let t = StoreModel {
        remotes: s.remotes.push(("origin"@, url)),
        head: default_branch,
        ..s
    };
    if lazy {
        StoreModel { lazy_origin: Some(url), ..t }
    } else {
        crate::staging::synced(t)
    }
}

/// Clone a remote.
pub open spec fn cloned_from<T: RemoteTransport>(
    s: StoreModel,
    t: T::State,
    url: Seq<char>,
    lazy: bool,
) -> Transfer<T::State> {
    if !is_fresh(s) {
        (s, t, Err(VersionError::CloneNotEmpty))
    } else {
        let (u, out) = T::refs_said(t);
        match out {
            Err(e) => (s, u, Err(e)),
            Ok(blob) => match crate::remote_wire::read_refs(blob) {
                None => (s, u, Err(VersionError::FailedReadRemoteRefs)),
                Some(refs) => {
                    let (next, v, done) = clone_from::<T>(s, u, refs.branches, lazy, 0);
                    match done {
                        Err(e) => (next, v, Err(e)),
                        Ok(_) => (clone_done(next, refs.default_branch, url, lazy), v, Ok(())),
                    }
                },
            },
        }
    }
}

// ---------------------------------------------------------------------------
// Code
// ---------------------------------------------------------------------------

pub(crate) fn part_of<A: Dup>(v: &Vec<A>, from: usize, to: usize) -> (r: Vec<A>)
    requires
        from <= to <= v@.len(),
    ensures
        r.deep_view() == v.deep_view().subrange(from as int, to as int),
{
    let ghost m = v.deep_view();
    let mut out: Vec<A> = Vec::new();
    let mut i: usize = from;
    while i < to
        invariant
            from <= i <= to <= v@.len(),
            m == v.deep_view(),
            out.deep_view() == m.subrange(from as int, i as int),
        decreases to - i,
    {
        let ghost before = out.deep_view();
        out.push(v[i].dup());
        proof {
            assert(m[i as int] == v@[i as int].deep_view());
            assert(out.deep_view() =~= before.push(m[i as int]));
            assert(out.deep_view() =~= m.subrange(from as int, i + 1));
        }
        i = i + 1;
    }
    out
}

/// The end of the batch that starts at `i`.
pub(crate) fn end_of_batch(i: usize, len: usize) -> (r: usize)
    requires
        i < len,
    ensures
        r == batch_end(i as int, len as nat),
        i < r <= len,
{
    if len - i > SYNC_BATCH_SIZE {
        i + SYNC_BATCH_SIZE
    } else {
        len
    }
}

impl VcStore {
    /// Add a remote.
    pub fn remote_add(&mut self, name: &str, url: &str) -> (r: VersionResult<()>)
        ensures
            ({
                let (s, out) = remote_added(old(self).deep_view(), name@, url@);
                final(self).deep_view() == s && crate::model::outcome(r) == out
            }),
    {
        let name = match normalize_remote_name(name) {
            Ok(n) => n,
            Err(e) => {
                return Err(e);
            },
        };
        if find_remote(&self.remotes, name.as_str()).is_some() {
            return Err(VersionError::RemoteAlreadyExists);
        }
        let ghost before = self.remotes.deep_view();
        let entry = RemoteConfig { name, url: url.to_owned() };
        let ghost m = entry.deep_view();
        self.remotes.push(entry);
        assert(self.remotes.deep_view() =~= before.push(m));
        Ok(())
    }

    /// Remove a remote, and with it what is known of its branches.
    pub fn remote_remove(&mut self, name: &str) -> (r: VersionResult<()>)
        ensures
            ({
                let (s, out) = remote_removed(old(self).deep_view(), name@);
                final(self).deep_view() == s && crate::model::outcome(r) == out
            }),
    {
        let name = match normalize_remote_name(name) {
            Ok(n) => n,
            Err(e) => {
                return Err(e);
            },
        };
        if find_remote(&self.remotes, name.as_str()).is_none() {
            return Err(VersionError::RemoteNotFound);
        }
        self.remotes = other_remotes(&self.remotes, name.as_str());
        forget_remote(&mut self.tracking, name.as_str());
        Ok(())
    }

    /// The URL of a remote.
    pub fn remote_url(&self, remote: &str) -> (r: VersionResult<String>)
        ensures
            match url_of(self.deep_view(), remote@) {
                Some(u) => r matches Ok(x) && x@ == u,
                None => r matches Err(e) && e is RemoteNotFound,
            },
    {
        match find_remote(&self.remotes, remote) {
            Some(i) => {
                assert(self.remotes.deep_view()[i as int] == self.remotes@[i as int].deep_view());
                Ok(self.remotes[i].url.clone())
            },
            None => Err(VersionError::RemoteNotFound),
        }
    }

    /// All that a tip needs: the objects of its history and the snapshots of each
    /// commit.
    fn local_closure(&self, tip: CommitId) -> (r: VersionResult<Closure>)
        ensures
            match history_of(self.deep_view(), tip@) {
                Ok(all) => r matches Ok(c) && c.objects.deep_view() == objects_of(
                    self.deep_view(),
                    all,
                ) && c.snap_lists.deep_view() == lists_of(self.deep_view(), all),
                Err(e) => r matches Err(x) && x.deep_view() == e,
            },
    {
        let ghost s = self.deep_view();
        let ghost read = commit_readings(s.commits);
        let ghost lost = lacked();
        let ghost whole = history_of(s, tip@);
        proof {
            self.commits.commits_finite();
            assert(read.dom() =~= s.commits.dom());
        }
        let mut walk = Walk::from_tip(tip);
        let mut closure = Closure { objects: Vec::new(), snap_lists: Vec::new() };
        assert(closure.objects.deep_view() =~= objects_of(s, seq![]));
        assert(closure.snap_lists.deep_view() =~= lists_of(s, seq![]));
        loop
            invariant
                s == self.deep_view(),
                read == commit_readings(s.commits),
                read.dom().finite(),
                lost == lacked(),
                whole == history_of(s, tip@),
                crate::walk::walked(read, lost, walk.stack.deep_view(), walk.seen.deep_view())
                    == whole,
                closure.objects.deep_view() == objects_of(s, walk.seen.deep_view()),
                closure.snap_lists.deep_view() == lists_of(s, walk.seen.deep_view()),
            decreases read.dom().difference(walk.seen.deep_view().to_set()).len(),
        {
            let ghost stack = walk.stack.deep_view();
            let ghost seen = walk.seen.deep_view();
            proof {
                crate::walk::lemma_trimmed(read, lost, stack, seen);
            }
            let c = match walk.next() {
                Some(c) => c,
                None => {
                    return Ok(closure);
                },
            };
            let commit = match self.commits.get_commit(&c) {
                Some(x) => x,
                None => {
                    return Err(VersionError::CommitNotFound(c.to_hex()));
                },
            };
            walk.follow(&commit.parents);
            let ghost before = closure.objects.deep_view();
            let bytes = encode_v2(&commit);
            closure.objects.push((SourceId::Commit(c), bytes));
            proof {
                let o: ObjectModel = (
                    SourceModel::Commit(c@),
                    crate::commit::commit_bytes(s.commits[c@]),
                );
                assert(closure.objects.deep_view() =~= before.push(o));
            }
            add_snapshots(&mut closure, self, c);
            proof {
                let more = seen.push(c@);
                assert(more.drop_last() =~= seen);
                crate::walk::lemma_unseen_shrinks(read, seen, c@);
            }
        }
    }

    /// Push a branch: send its tip and what the remote lacks of all it needs, then
    /// move the remote's branch. Without force the remote's tip has to be known to be in the
    /// history of ours.
    pub fn push<T: RemoteTransport>(
        &self,
        transport: &mut T,
        remote: &str,
        branch: &str,
        force: bool,
    ) -> (r: VersionResult<()>)
        ensures
            pushed::<T>(self.deep_view(), old(transport).state(), remote@, branch@, force) == (
                final(transport).state(),
                crate::model::outcome(r),
            ),
    {
        match self.remote_url(remote) {
            Ok(_) => {},
            Err(e) => {
                return Err(e);
            },
        }
        let tip = match self.refs.get(&RefName::branch(branch)) {
            Some(id) => id,
            None => {
                return Err(VersionError::BranchNotFound(branch.to_owned()));
            },
        };
        let found = match transport.find_branch(branch) {
            Ok(f) => f,
            Err(e) => {
                return Err(e);
            },
        };
        if !self.push_allowed(found, tip, force) {
            return Err(VersionError::PushNotFastForward);
        }
        self.send(transport, branch, tip, force)
    }

    /// May a push go on, given the remote's tip?
    pub fn push_allowed(&self, remote_tip: Option<CommitId>, tip: CommitId, force: bool) -> (r: bool)
        ensures
            r == may_push(self.deep_view(), remote_tip.deep_view(), tip@, force),
    {
        match remote_tip {
            None => true,
            Some(t) => {
                if force || t == tip {
                    return true;
                }
                if self.commits.get_commit(&t).is_none() {
                    return false;
                }
                match is_ancestor(&self.commits, t, tip) {
                    Ok(b) => b,
                    Err(_) => false,
                }
            },
        }
    }

    /// Send a tip and all it needs, then move the remote's branch.
    fn send<T: RemoteTransport>(&self, transport: &mut T, branch: &str, tip: CommitId, force: bool) -> (r:
        VersionResult<()>)
        ensures
            sent::<T>(self.deep_view(), old(transport).state(), branch@, tip@, force) == (
                final(transport).state(),
                crate::model::outcome(r),
            ),
    {
        let closure = match self.local_closure(tip) {
            Ok(c) => c,
            Err(e) => {
                return Err(e);
            },
        };
        let ghost objects = closure.objects.deep_view();
        let ghost lists = closure.snap_lists.deep_view();
        let ghost whole = put_from::<T>(transport.state(), objects, lists, 0);
        let ghost all = history_of(self.deep_view(), tip@)->Ok_0;
        let mut i: usize = 0;
        while i < closure.objects.len()
            invariant
                i <= closure.objects@.len(),
                objects == closure.objects.deep_view(),
                lists == closure.snap_lists.deep_view(),
                objects.len() == closure.objects@.len(),
                history_of(self.deep_view(), tip@) == Ok::<Seq<Seq<u8>>, Fault>(all),
                objects == objects_of(self.deep_view(), all),
                lists == lists_of(self.deep_view(), all),
                whole == put_from::<T>(old(transport).state(), objects, lists, 0),
                put_from::<T>(transport.state(), objects, lists, i as int) == whole,
            decreases closure.objects.len() - i,
        {
            let j = end_of_batch(i, closure.objects.len());
            let batch = part_of(&closure.objects, i, j);
            assert(batch.deep_view().len() == batch@.len());
            let present = match transport.has_many(&ids_in(&batch)) {
                Ok(p) => p,
                Err(e) => {
                    return Err(e);
                },
            };
            assert(present.deep_view() =~= present@);
            match transport.put_batch(&without_present(&batch, &present), &closure.snap_lists) {
                Ok(_) => {},
                Err(e) => {
                    return Err(e);
                },
            }
            i = j;
        }
        transport.update_branch(branch, tip, force)
    }

    /// Does the repository hold an object?
    pub fn has_object(&self, id: &SourceId) -> (r: bool)
        ensures
            r == holds(self.deep_view(), id.deep_view()),
    {
        match id {
            SourceId::Commit(c) => self.commits.get_commit(c).is_some(),
            SourceId::Snapshot(x) => self.snap_index.contains(x),
        }
    }

    /// Store an object once it is verified: a commit among the commits, a
    /// snapshot under its owner and table. A refused object changes nothing.
    pub fn store_remote_object(&mut self, id: &SourceId, bytes: &[u8]) -> (r: VersionResult<()>)
        ensures
            ({
                let (s, out) = object_stored(old(self).deep_view(), id.deep_view(), bytes@);
                final(self).deep_view() == s && crate::model::outcome(r) == out
            }),
    {
        reveal(object_stored);
        match store_object(&mut self.commits, &mut self.snapshots, id, bytes) {
            Ok(_) => {},
            Err(e) => {
                return Err(e);
            },
        }
        match id {
            SourceId::Commit(_) => {},
            SourceId::Snapshot(x) => match decode_snapshot_record(bytes) {
                Ok((owner, table, _)) => {
                    self.snap_index.insert(*x, (owner, table));
                },
                Err(_) => {},
            },
        }
        Ok(())
    }

    pub(crate) fn store_batch(&mut self, objects: &Vec<(SourceId, Vec<u8>)>) -> (r: VersionResult<()>)
        ensures
            ({
                let (s, out) = store_from(old(self).deep_view(), objects.deep_view(), 0);
                final(self).deep_view() == s && crate::model::outcome(r) == out
            }),
    {
        let ghost o = objects.deep_view();
        let ghost whole = store_from(self.deep_view(), o, 0);
        let mut i: usize = 0;
        while i < objects.len()
            invariant
                i <= objects@.len(),
                o == objects.deep_view(),
                whole == store_from(old(self).deep_view(), o, 0),
                store_from(self.deep_view(), o, i as int) == whole,
            decreases objects.len() - i,
        {
            assert(o[i as int] == objects@[i as int].deep_view());
            match self.store_remote_object(&objects[i].0, objects[i].1.as_slice()) {
                Ok(_) => {},
                Err(e) => {
                    return Err(e);
                },
            }
            i = i + 1;
        }
        Ok(())
    }

    pub(crate) fn lacking(&self, ids: &Vec<SourceId>) -> (r: Vec<SourceId>)
        ensures
            r.deep_view() == ids.deep_view().filter(
                |id: SourceModel| !holds(self.deep_view(), id),
            ),
    {
        let ghost s = ids.deep_view();
        let ghost p = |id: SourceModel| !holds(self.deep_view(), id);
        let mut out: Vec<SourceId> = Vec::new();
        let mut i: usize = 0;
        proof {
            reveal(Seq::filter);
            assert(s.take(0).filter(p) =~= seq![]);
            assert(out.deep_view() =~= seq![]);
        }
        while i < ids.len()
            invariant
                i <= ids@.len(),
                s == ids.deep_view(),
                p == (|id: SourceModel| !holds(self.deep_view(), id)),
                out.deep_view() == s.take(i as int).filter(p),
            decreases ids.len() - i,
        {
            proof {
                reveal(Seq::filter);
                assert(s.take(i + 1).drop_last() =~= s.take(i as int));
                assert(s.take(i + 1).last() == ids@[i as int].deep_view());
            }
            let ghost before = out.deep_view();
            if !self.has_object(&ids[i]) {
                out.push(ids[i]);
                assert(out.deep_view() =~= before.push(s[i as int]));
            }
            i = i + 1;
        }
        assert(s.take(i as int) =~= s);
        out
    }

    /// Get all that a tip needs and the repository lacks, in batches.
    fn fetch_closure<T: RemoteTransport>(&mut self, transport: &mut T, tip: CommitId) -> (r:
        VersionResult<()>)
        ensures
            closure_fetched::<T>(old(self).deep_view(), old(transport).state(), tip@) == (
                final(self).deep_view(),
                final(transport).state(),
                crate::model::outcome(r),
            ),
    {
        reveal(closure_fetched);
        let ids = match transport.walk(tip) {
            Ok(ids) => ids,
            Err(e) => {
                return Err(e);
            },
        };
        let missing = self.lacking(&ids);
        let ghost m = missing.deep_view();
        let ghost whole = get_from::<T>(self.deep_view(), transport.state(), m, 0);
        assert(whole == closure_fetched::<T>(old(self).deep_view(), old(transport).state(), tip@));
        let mut i: usize = 0;
        while i < missing.len()
            invariant
                i <= missing@.len(),
                m == missing.deep_view(),
                m.len() == missing@.len(),
                whole == closure_fetched::<T>(
                    old(self).deep_view(),
                    old(transport).state(),
                    tip@,
                ),
                get_from::<T>(self.deep_view(), transport.state(), m, i as int) == whole,
            decreases missing.len() - i,
        {
            let j = end_of_batch(i, missing.len());
            let batch = part_of(&missing, i, j);
            let objects = match transport.get_batch(&batch) {
                Ok(o) => o,
                Err(e) => {
                    return Err(e);
                },
            };
            match self.store_batch(&objects) {
                Ok(_) => {},
                Err(e) => {
                    return Err(e);
                },
            }
            i = j;
        }
        Ok(())
    }

    /// Fetch a branch: get what its tip needs, then note the tip.
    pub fn fetch<T: RemoteTransport>(&mut self, transport: &mut T, remote: &str, branch: &str) -> (r:
        VersionResult<()>)
        ensures
            fetched::<T>(old(self).deep_view(), old(transport).state(), remote@, branch@) == (
                final(self).deep_view(),
                final(transport).state(),
                crate::model::outcome(r),
            ),
    {
        match self.remote_url(remote) {
            Ok(_) => {},
            Err(e) => {
                return Err(e);
            },
        }
        let tip = match transport.find_branch(branch) {
            Ok(Some(tip)) => tip,
            Ok(None) => {
                return Err(VersionError::FetchBranchNotFound);
            },
            Err(e) => {
                return Err(e);
            },
        };
        match self.fetch_closure(transport, tip) {
            Ok(_) => {},
            Err(e) => {
                return Err(e);
            },
        }
        self.tracking.insert((remote.to_owned(), branch.to_owned()), tip);
        Ok(())
    }

    /// Bring a branch to the tip that was fetched for it: nothing to do, a move
    /// forward, or a merge into the current branch.
    pub fn catch_up(&mut self, remote: &str, branch: &str) -> (r: VersionResult<PullOutcome>)
        ensures
            ({
                let (s, out) = caught_up(old(self).deep_view(), remote@, branch@);
                final(self).deep_view() == s && crate::model::outcome(r) == out
            }),
    {
        let tip = match self.tracking.get(&(remote.to_owned(), branch.to_owned())) {
            Some(id) => *id,
            None => {
                return Err(VersionError::TrackingNotFoundAfterFetch);
            },
        };
        if self.has_uncommitted() {
            return Err(VersionError::PullUncommittedChanges);
        }
        let local = self.refs.get(&RefName::branch(branch));
        match local {
            Some(l) => {
                if l == tip {
                    return Ok(PullOutcome::UpToDate);
                }
            },
            None => {},
        }
        let current = match self.active_branch() {
            Some(b) => str_eq(b, branch),
            None => false,
        };
        let behind = match local {
            None => true,
            Some(l) => match is_ancestor(&self.commits, l, tip) {
                Ok(b) => b,
                Err(e) => {
                    return Err(e);
                },
            },
        };
        if behind {
            self.refs.set(&RefName::branch(branch), tip);
            self.branches.insert(branch);
            if current {
                self.sync_work_to_head();
            }
            return Ok(PullOutcome::FastForwarded);
        }
        if !current {
            return Err(VersionError::PullNonCurrentNotFastForward);
        }
        if self.lazy_origin.is_some() {
            return Err(VersionError::PullLazyNonFF);
        }
        let prefix = cat3("remotes/", remote, "/");
        let name = cat2(prefix.as_str(), branch);
        match self.merge_branch(name.as_str(), false, false, None) {
            Ok(m) => Ok(PullOutcome::Merged(m)),
            Err(e) => Err(e),
        }
    }

    /// Pull a branch: fetch it, then catch up.
    pub fn pull<T: RemoteTransport>(&mut self, transport: &mut T, remote: &str, branch: &str) -> (r:
        VersionResult<PullOutcome>)
        ensures
            pulled::<T>(old(self).deep_view(), old(transport).state(), remote@, branch@) == (
                final(self).deep_view(),
                final(transport).state(),
                crate::model::outcome(r),
            ),
    {
        match self.fetch(transport, remote, branch) {
            Ok(_) => self.catch_up(remote, branch),
            Err(e) => Err(e),
        }
    }

    /// Is the repository empty enough to clone into?
    pub fn clone_fresh(&self) -> (r: bool)
        ensures
            r == is_fresh(self.deep_view()),
    {
        assert(self.tables.deep_view().len() == self.tables@.len());
        assert(self.remotes.deep_view().len() == self.remotes@.len());
        self.commits.commits.len() == 0 && self.remotes.len() == 0 && self.tables.len() == 0
    }

    /// Note which objects a tip needs, as the remote names them.
    fn note_walk<T: RemoteTransport>(&mut self, transport: &mut T, tip: CommitId) -> (r:
        VersionResult<()>)
        ensures
            catalog_noted::<T>(old(self).deep_view(), old(transport).state(), tip@) == (
                final(self).deep_view(),
                final(transport).state(),
                crate::model::outcome(r),
            ),
    {
        match transport.walk(tip) {
            Ok(ids) => {
                self.note_lazy_catalog(tip, ids);
                Ok(())
            },
            Err(e) => Err(e),
        }
    }

    /// Take over branches, with what their tips need or, where the clone is lazy,
    /// with the names of it.
    fn clone_branches<T: RemoteTransport>(
        &mut self,
        transport: &mut T,
        branches: &Vec<(String, CommitId)>,
        lazy: bool,
    ) -> (r: VersionResult<()>)
        ensures
            clone_from::<T>(
                old(self).deep_view(),
                old(transport).state(),
                branches.deep_view(),
                lazy,
                0,
            ) == (
                final(self).deep_view(),
                final(transport).state(),
                crate::model::outcome(r),
            ),
    {
        let ghost b = branches.deep_view();
        let ghost whole = clone_from::<T>(self.deep_view(), transport.state(), b, lazy, 0);
        let mut i: usize = 0;
        while i < branches.len()
            invariant
                i <= branches@.len(),
                b == branches.deep_view(),
                whole == clone_from::<T>(
                    old(self).deep_view(),
                    old(transport).state(),
                    b,
                    lazy,
                    0,
                ),
                clone_from::<T>(self.deep_view(), transport.state(), b, lazy, i as int) == whole,
            decreases branches.len() - i,
        {
            assert(b[i as int] == branches@[i as int].deep_view());
            let tip = branches[i].1;
            let taken = if lazy {
                self.note_walk(transport, tip)
            } else {
                self.fetch_closure(transport, tip)
            };
            match taken {
                Ok(_) => {},
                Err(e) => {
                    return Err(e);
                },
            }
            self.refs.set(&RefName::branch(branches[i].0.as_str()), tip);
            self.branches.insert(branches[i].0.as_str());
            self.tracking.insert(("origin".to_owned(), branches[i].0.clone()), tip);
            i = i + 1;
        }
        Ok(())
    }

    /// Clone a remote into an empty repository. A lazy clone notes which objects
    /// the tips need and leaves them with their origin.
    pub fn clone_remote<T: RemoteTransport>(&mut self, transport: &mut T, url: &str, lazy: bool) -> (r:
        VersionResult<()>)
        ensures
            cloned_from::<T>(old(self).deep_view(), old(transport).state(), url@, lazy) == (
                final(self).deep_view(),
                final(transport).state(),
                crate::model::outcome(r),
            ),
    {
        if !self.clone_fresh() {
            return Err(VersionError::CloneNotEmpty);
        }
        let blob = match transport.get_refs() {
            Ok(b) => b,
            Err(e) => {
                return Err(e);
            },
        };
        let refs = match decode_refs(blob.as_slice()) {
            Ok(x) => x,
            Err(e) => {
                return Err(e);
            },
        };
        match self.clone_branches(transport, &refs.branches, lazy) {
            Ok(_) => {},
            Err(e) => {
                return Err(e);
            },
        }
        let ghost before = self.remotes.deep_view();
        let origin = RemoteConfig { name: "origin".to_owned(), url: url.to_owned() };
        let ghost m = origin.deep_view();
        self.remotes.push(origin);
        assert(self.remotes.deep_view() =~= before.push(m));
        self.head = refs.default_branch;
        if lazy {
            self.lazy_origin = Some(url.to_owned());
        } else {
            self.sync_work_to_head();
        }
        Ok(())
    }
}

/// Storing an object keeps what was held; a stored object is held under its id.
pub proof fn lemma_object_stored(s: StoreModel, id: SourceModel, bytes: Seq<u8>, x: SourceModel)
    ensures
        ({
            let (t, out) = object_stored(s, id, bytes);
            &&& out is Ok <==> crate::remote_wire::verified(id, bytes) is Ok
            &&& out is Err ==> t == s
            &&& out is Ok ==> holds(t, id)
            &&& holds(s, x) ==> holds(t, x)
            &&& t.lazy_catalog == s.lazy_catalog && t.lazy_origin == s.lazy_origin
            &&& t.refs == s.refs && t.work == s.work && t.tracking == s.tracking
        }),
{
    reveal(object_stored);
}

/// Storing verified objects goes well; what was held stays held, and what is
/// stored is held.
#[verifier::spinoff_prover]
#[verifier::rlimit(60)]
pub proof fn lemma_store_from(s: StoreModel, objects: Seq<ObjectModel>, i: int, x: SourceModel)
    requires
        0 <= i <= objects.len(),
    ensures
        ({
            let (t, out) = store_from(s, objects, i);
            &&& (forall|k: int|
                i <= k < objects.len() ==> crate::remote_wire::verified(
                    (#[trigger] objects[k]).0,
                    objects[k].1,
                ) is Ok) ==> out is Ok
            &&& holds(s, x) ==> holds(t, x)
            &&& out is Ok && (exists|k: int|
                i <= k < objects.len() && (#[trigger] objects[k]).0 == x) ==> holds(
                t,
                x,
            )
            &&& t.lazy_catalog == s.lazy_catalog && t.lazy_origin == s.lazy_origin
            &&& t.refs == s.refs && t.work == s.work && t.tracking == s.tracking
        }),
    decreases objects.len() - i,
{
    if i < objects.len() {
        lemma_object_stored(s, objects[i].0, objects[i].1, x);
        lemma_object_stored(s, objects[i].0, objects[i].1, objects[i].0);
        let next = object_stored(s, objects[i].0, objects[i].1).0;
        lemma_store_from(next, objects, i + 1, x);
        if exists|k: int| i <= k < objects.len() && (#[trigger] objects[k]).0 == x {
            let k = choose|k: int| i <= k < objects.len() && (#[trigger] objects[k]).0 == x;
            if k > i {
                assert(i + 1 <= k < objects.len() && objects[k].0 == x);
            }
        }
    }
}

/// The name of a remote tip names that tip, where the name of the remote has no slash.
proof fn lemma_tracking_named(s: StoreModel, remote: Seq<char>, branch: Seq<char>)
    requires
        !remote.contains('/'),
        s.tracking.dom().contains((remote, branch)),
    ensures
        crate::staging::named(s, "remotes/"@ + remote + "/"@ + branch) == Ok::<Seq<u8>, Fault>(
            s.tracking[(remote, branch)],
        ),
{
    let prefix = "remotes/"@;
    let slash = seq!['/'];
    let name = prefix + remote + "/"@ + branch;
    let rest = name.skip(prefix.len() as int);
    reveal_strlit("/");
    assert("/"@ =~= slash);
    assert(name.subrange(0, prefix.len() as int) =~= prefix);
    assert(rest =~= remote + slash + branch);
    crate::text::lemma_find_first(rest, slash, 0);
    let k = remote.len() as int;
    assert(rest.subrange(k, k + 1) =~= slash);
    assert(crate::text::stands_at(rest, slash, k));
    assert(crate::text::find_from(rest, slash, 0) is Some);
    let at = crate::text::find_from(rest, slash, 0)->0;
    assert(rest.subrange(at, at + 1)[0] == rest[at]);
    if at < k {
        assert(remote[at] == '/');
    }
    assert(at == k);
    assert(rest.take(k) =~= remote);
    assert(rest.skip(k + 1) =~= branch);
}

/// Is a commit in the history of another, over all parents?
pub open spec fn in_history(s: StoreModel, old: Seq<u8>, new: Seq<u8>) -> bool {
    crate::reach::reaches(crate::commit::parent_links(s.commits), set![new], old)
}

/// Catching up keeps the local history: where the branch was there before, its earlier tip
/// is in the history of its new tip. The branch moves forward to the fetched tip exactly
/// where nothing of it would be lost; otherwise the two are merged, and a merge that
/// commits has the earlier tip and the fetched one as its parents.
pub proof fn law_catching_up_keeps_the_local_history(
    s: StoreModel,
    remote: Seq<char>,
    branch: Seq<char>,
    out: PullOutcome<ResultModel>,
)
    requires
        caught_up(s, remote, branch).1 == Ok::<PullOutcome<ResultModel>, Fault>(out),
    ensures
        ({
            let after = caught_up(s, remote, branch).0;
            let at = (RefNs::Heads, branch);
            let tip = s.tracking[(remote, branch)];
            let old = s.refs[at];
            let had = s.refs.dom().contains(at);
            &&& s.tracking.dom().contains((remote, branch))
            &&& after.refs.dom().contains(at)
            &&& had ==> in_history(after, old, after.refs[at])
            &&& forall|other: (RefNs, Seq<char>)|
                other != at ==> (#[trigger] after.refs.dom().contains(other)
                    <==> s.refs.dom().contains(other)) && after.refs[other] == s.refs[other]
            &&& out is UpToDate <==> had && old == tip
            &&& out is FastForwarded <==> !had || (old != tip && in_history(s, old, tip))
            &&& out is UpToDate ==> after == s
            &&& out is FastForwarded ==> {
                &&& after.refs[at] == tip
                &&& after.commits == s.commits && after.snapshots == s.snapshots
                &&& s.detached is None && s.head == branch ==> after.work
                    == crate::remote_wire::tables_at(s.snapshots, tip)
            }
            &&& out matches PullOutcome::Merged(r) ==> {
                &&& s.detached is None && s.head == branch
                &&& !(r is Committed) ==> after.refs == s.refs && after.commits == s.commits
                &&& !remote.contains('/') ==> (r matches crate::replay::MergeResult::Committed(id)
                    ==> {
                    &&& after.refs[at] == id
                    &&& after.commits[id].parents == seq![old, tip]
                    &&& in_history(after, tip, id)
                })
            }
        }),
{
    let after = caught_up(s, remote, branch).0;
    let at = (RefNs::Heads, branch);
    let tip = s.tracking[(remote, branch)];
    let links = crate::commit::parent_links(after.commits);
    if out is UpToDate {
        crate::reach::lemma_root_reached(links, set![tip], tip);
    } else if let PullOutcome::Merged(r) = out {
        let old = s.refs[at];
        let name = "remotes/"@ + remote + "/"@ + branch;
        let found = crate::staging::named(s, name)->Ok_0;
        crate::replay::lemma_merge_parents(s, name, old, found, r);
        if !remote.contains('/') {
            lemma_tracking_named(s, remote, branch);
        }
        let new = after.refs[at];
        crate::reach::lemma_root_reached(links, set![new], new);
        if let crate::replay::MergeResult::Committed(id) = r {
            let parents = seq![old, found];
            assert(parents[0] == old && parents[1] == found);
            assert(crate::reach::targets(links, id) == parents);
            assert(parents.contains(old) && parents.contains(found));
            crate::reach::lemma_target_reached(links, set![id], id, old);
            crate::reach::lemma_target_reached(links, set![id], id, found);
        }
    }
}

/// Catching up leaves the noted remote tips alone.
pub proof fn lemma_catching_up_keeps_tracking(s: StoreModel, remote: Seq<char>, branch: Seq<char>)
    ensures
        caught_up(s, remote, branch).0.tracking == s.tracking,
{
    reveal(crate::replay::commit_work);
    reveal(crate::replay::put_replay);
}

proof fn lemma_remote_at(remotes: Seq<(Seq<char>, Seq<char>)>, name: Seq<char>)
    ensures
        match remote_at(remotes, name) {
            Some(i) => 0 <= i < remotes.len() && remotes[i].0 == name && forall|j: int|
                0 <= j < i ==> (#[trigger] remotes[j]).0 != name,
            None => forall|j: int| 0 <= j < remotes.len() ==> (#[trigger] remotes[j]).0 != name,
        },
    decreases remotes.len(),
{
    if remotes.len() > 0 {
        let d = remotes.drop_last();
        lemma_remote_at(d, name);
        if remote_at(d, name) is None {
            assert forall|j: int| 0 <= j < d.len() implies (#[trigger] remotes[j]).0 != name by {
                assert(d[j] == remotes[j]);
            }
            assert(remotes[remotes.len() - 1] == remotes.last());
        } else {
            let i = remote_at(d, name)->0;
            assert forall|j: int| 0 <= j < i implies (#[trigger] remotes[j]).0 != name by {
                assert(d[j] == remotes[j]);
            }
        }
    }
}

/// A remote that was added has its place under its name, without the white space around it;
/// every other remote keeps its own. A name that is blank, holds a slash or is taken is
/// refused, and nothing else in the repository changes.
pub proof fn law_added_remote_has_its_place(
    s: StoreModel,
    raw: Seq<char>,
    url: Seq<char>,
    other: Seq<char>,
)
    requires
        other != crate::text::trimmed(raw),
    ensures
        ({
            let (t, out) = remote_added(s, raw, url);
            let name = crate::text::trimmed(raw);
            let taken = exists|i: int|
                0 <= i < s.remotes.len() && (#[trigger] s.remotes[i]).0 == name;
            if name.len() == 0 || name.contains('/') || taken {
                t == s && out is Err
            } else {
                &&& out is Ok
                &&& url_of(t, name) == Some(url)
                &&& url_of(t, other) == url_of(s, other)
                &&& t == (StoreModel { remotes: t.remotes, ..s })
            }
        }),
{
    let (t, out) = remote_added(s, raw, url);
    let name = crate::text::trimmed(raw);
    lemma_remote_at(s.remotes, name);
    lemma_remote_at(s.remotes, other);
    if remote_name(raw) is Some && remote_at(s.remotes, name) is None {
        let more = s.remotes.push((name, url));
        assert(more.drop_last() =~= s.remotes);
        assert(more.last() == (name, url));
    }
}

/// A remote that was removed is gone, and so is what was known of its branches; every other
/// remote and its branches stay, and nothing else in the repository changes.
pub proof fn law_removed_remote_is_gone(
    s: StoreModel,
    raw: Seq<char>,
    other: Seq<char>,
    branch: Seq<char>,
)
    requires
        other != crate::text::trimmed(raw),
        remote_removed(s, raw).1 is Ok,
    ensures
        ({
            let t = remote_removed(s, raw).0;
            let name = crate::text::trimmed(raw);
            &&& url_of(s, name) is Some
            &&& url_of(t, name) is None
            &&& url_of(t, other) == url_of(s, other)
            &&& !t.tracking.dom().contains((name, branch))
            &&& crate::merge::lookup(t.tracking, (other, branch)) == crate::merge::lookup(
                s.tracking,
                (other, branch),
            )
            &&& t == (StoreModel { remotes: t.remotes, tracking: t.tracking, ..s })
        }),
{
    let t = remote_removed(s, raw).0;
    let name = crate::text::trimmed(raw);
    let p = of_another(name);
    crate::creds::lemma_filter_distinct(s.remotes, p);
    lemma_remote_at(t.remotes, name);
    if let Some(i) = remote_at(t.remotes, name) {
        assert(t.remotes.contains(t.remotes[i]));
        assert(p(t.remotes[i]));
    }
    lemma_other_remote(s.remotes, name, other);
}

proof fn lemma_other_remote(
    remotes: Seq<(Seq<char>, Seq<char>)>,
    name: Seq<char>,
    other: Seq<char>,
)
    requires
        other != name,
    ensures
        ({
            let left = remotes.filter(of_another(name));
            match remote_at(remotes, other) {
                Some(i) => remote_at(left, other) matches Some(j) && left[j].1 == remotes[i].1,
                None => remote_at(left, other) is None,
            }
        }),
    decreases remotes.len(),
{
    reveal(Seq::filter);
    let p = of_another(name);
    let left = remotes.filter(p);
    if remotes.len() > 0 {
        let d = remotes.drop_last();
        lemma_other_remote(d, name, other);
        lemma_remote_at(d, other);
        let e = remotes.last();
        if p(e) {
            assert(left == d.filter(p).push(e));
            assert(left.drop_last() =~= d.filter(p));
            lemma_remote_at(d.filter(p), other);
        } else {
            assert(left == d.filter(p));
        }
    }
}

/// A push that is not forced goes on only if the remote has no such branch yet, stands at
/// the same commit, or stands at one in the history of the pushed tip; a forced push always
/// goes on.
pub proof fn law_unforced_push_moves_forward(s: StoreModel, remote_tip: Option<Seq<u8>>, tip: Seq<u8>)
    ensures
        may_push(s, remote_tip, tip, true),
        may_push(s, None, tip, false),
        may_push(s, Some(tip), tip, false),
        remote_tip matches Some(r) ==> r != tip ==> (may_push(s, remote_tip, tip, false)
            <==> s.commits.dom().contains(r) && crate::commit::ancestry(s.commits, r, tip) == Ok::<
            bool,
            Fault,
        >(true)),
{
}

} // verus!
