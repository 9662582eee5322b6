//! Remote transports: what every remote command talks through.
//!
//! A served remote in memory answers requests with `serve`. The `file://` format
//! frames its branch table with a hash and keeps snapshot lists as text.

use vstd::prelude::*;

use crate::assoc::AssocMap;
use crate::commit::decode_v2;
use crate::model::{CommitId, VersionError, VersionResult};
use crate::octets::{bytes_order, Order};
use crate::reach::{reachable, Links};
use crate::remote_wire::{
    decode_refs, encode_refs, RefsModel, RemoteRefs, SnapshotId, SourceId, SourceModel,
};
use crate::table_merge::Fault;
use crate::text::{cut_once, str_eq, Dup, Same};
use crate::walk::{Readings, Walk};

verus! {

broadcast use crate::text::lemma_bytes_deep_view;

// ---------------------------------------------------------------------------
// Objects
// ---------------------------------------------------------------------------

/// Objects by id.
pub type Objects = AssocMap<SourceId, Vec<u8>>;

/// What objects stand for.
pub type ObjectsModel = Map<SourceModel, Seq<u8>>;

/// An object with its id.
pub type ObjectModel = (SourceModel, Seq<u8>);

/// The snapshots of a commit.
pub type ListModel = (Seq<u8>, Seq<Seq<u8>>);

/// An object that is not there.
pub open spec fn lost_object(id: SourceModel) -> Fault {
    VersionError::ChunkNotFound(crate::digest::hex_text(crate::remote_wire::source_bytes(id)))
}

/// A commit that is not there.
pub open spec fn lost_commit() -> spec_fn(Seq<u8>) -> Fault {
    |c: Seq<u8>| lost_object(SourceId::Commit(c))
}

/// What reading a commit from bytes gives.
pub open spec fn parents_in(bytes: Seq<u8>) -> Result<Seq<Seq<u8>>, Fault> {
    match crate::commit::read_commit(bytes) {
        Some(c) => Ok(c.parents),
        None => Err(VersionError::InvalidCommitEncoding),
    }
}

/// What reading each commit gives.
pub open spec fn readings(objects: ObjectsModel) -> Readings {
    Map::new(
        |c: Seq<u8>| objects.dom().contains(SourceId::Commit(c)),
        |c: Seq<u8>| parents_in(objects[SourceId::Commit(c)]),
    )
}

/// Finitely many objects hold finitely many commits.
pub proof fn lemma_readings_finite(objects: ObjectsModel)
    requires
        objects.dom().finite(),
    ensures
        readings(objects).dom().finite(),
{
    let f = |id: SourceModel| crate::remote_wire::source_bytes(id);
    objects.dom().lemma_map_finite(f);
    let all = objects.dom().map(f);
    assert forall|c: Seq<u8>| readings(objects).dom().contains(c) implies all.contains(c) by {
        assert(f(SourceModel::Commit(c)) == c);
    }
    assert(readings(objects).dom().subset_of(all));
    vstd::set_lib::lemma_set_subset_finite(all, readings(objects).dom());
}

/// The parents of each commit among the objects that can be read.
pub open spec fn object_links(objects: ObjectsModel) -> Map<Seq<u8>, Seq<Seq<u8>>> {
    crate::walk::read_links(readings(objects))
}

impl Links<CommitId> for AssocMap<SourceId, Vec<u8>> {
    open spec fn links(&self) -> Map<Seq<u8>, Seq<Seq<u8>>> {
        object_links(self.deep_view())
    }

    proof fn links_finite(&self) {
        self.lemma_finite();
        lemma_readings_finite(self.deep_view());
        assert(self.links().dom().subset_of(readings(self.deep_view()).dom()));
        vstd::set_lib::lemma_set_subset_finite(
            readings(self.deep_view()).dom(),
            self.links().dom(),
        );
    }

    fn follow(&self, x: &CommitId) -> (r: Vec<CommitId>) {
        let none: Vec<CommitId> = Vec::new();
        assert(none.deep_view() =~= seq![]);
        match self.get(&SourceId::Commit(*x)) {
            Some(bytes) => match decode_v2(bytes.as_slice()) {
                Ok(c) => c.parents,
                Err(_) => none,
            },
            None => none,
        }
    }
}

/// Does the history of `tip` among the objects hold `ancestor`?
fn is_ancestor(objects: &Objects, ancestor: CommitId, tip: CommitId) -> (r: bool)
    ensures
        r == crate::reach::reaches(object_links(objects.deep_view()), set![tip@], ancestor@),
{
    let mut roots: Vec<CommitId> = Vec::new();
    roots.push(tip);
    proof {
        let l = roots.deep_view();
        assert(l =~= seq![tip@]);
        assert(l[0] == tip@);
        assert(l.to_set() =~= set![tip@]);
    }
    reachable(objects, roots).contains(&ancestor)
}

/// The order of ids: commits first, then by bytes.
pub open spec fn source_lt() -> spec_fn(SourceModel, SourceModel) -> bool {
    |a: SourceModel, b: SourceModel|
        match (a, b) {
            (SourceId::Commit(x), SourceId::Commit(y)) => crate::octets::bytes_lt(x, y),
            (SourceId::Snapshot(x), SourceId::Snapshot(y)) => crate::octets::bytes_lt(x, y),
            (SourceId::Commit(_), SourceId::Snapshot(_)) => true,
            (SourceId::Snapshot(_), SourceId::Commit(_)) => false,
        }
}

/// The order of ids is the order of a line.
pub proof fn lemma_source_order()
    ensures
        crate::sorting::strict_order(source_lt()),
{
    let lt = source_lt();
    assert forall|x: SourceModel, y: SourceModel| x == y || #[trigger] lt(x, y) || lt(y, x) by {
        crate::octets::lemma_bytes_lt_total(
            crate::remote_wire::source_bytes(x),
            crate::remote_wire::source_bytes(y),
        );
    }
    assert forall|x: SourceModel, y: SourceModel| #[trigger] lt(x, y) implies !lt(y, x) by {
        crate::octets::lemma_bytes_lt_total(
            crate::remote_wire::source_bytes(x),
            crate::remote_wire::source_bytes(y),
        );
    }
    assert forall|x: SourceModel| !#[trigger] lt(x, x) by {
        crate::octets::lemma_bytes_lt_total(
            crate::remote_wire::source_bytes(x),
            crate::remote_wire::source_bytes(x),
        );
    }
    assert forall|x: SourceModel, y: SourceModel, z: SourceModel| #[trigger]
        lt(x, y) && #[trigger] lt(y, z) implies lt(x, z) by {
        if (x is Commit) == (z is Commit) {
            crate::octets::lemma_bytes_lt_trans(
                crate::remote_wire::source_bytes(x),
                crate::remote_wire::source_bytes(y),
                crate::remote_wire::source_bytes(z),
            );
        }
    }
}

/// The ids of a set in their order.
pub open spec fn ordered_ids(ids: Set<SourceModel>) -> Seq<SourceModel> {
    choose|s: Seq<SourceModel>| crate::sorting::increasing(s, source_lt()) && s.to_set() == ids
}

fn source_order(a: &SourceId, b: &SourceId) -> (r: Order)
    ensures
        r == Order::Before <==> source_lt()(a.deep_view(), b.deep_view()),
        r == Order::Equal <==> a.deep_view() == b.deep_view(),
        r == Order::After <==> source_lt()(b.deep_view(), a.deep_view()),
{
    proof {
        lemma_source_order();
        crate::octets::lemma_bytes_lt_total(
            crate::remote_wire::source_bytes(a.deep_view()),
            crate::remote_wire::source_bytes(b.deep_view()),
        );
    }
    match (a, b) {
        (SourceId::Commit(x), SourceId::Commit(y)) => bytes_order(x.0.as_slice(), y.0.as_slice()),
        (SourceId::Snapshot(x), SourceId::Snapshot(y)) => bytes_order(
            x.0.as_slice(),
            y.0.as_slice(),
        ),
        (SourceId::Commit(_), SourceId::Snapshot(_)) => Order::Before,
        (SourceId::Snapshot(_), SourceId::Commit(_)) => Order::After,
    }
}

/// Add an id to an increasing list.
fn insert_id(v: &mut Vec<SourceId>, id: SourceId)
    requires
        crate::sorting::increasing(old(v).deep_view(), source_lt()),
    ensures
        crate::sorting::increasing(final(v).deep_view(), source_lt()),
        final(v).deep_view().to_set() == old(v).deep_view().to_set().insert(id.deep_view()),
{
    let ghost before = v.deep_view();
    let ghost t = id.deep_view();
    let ghost lt = source_lt();
    proof {
        lemma_source_order();
    }
    let mut i: usize = 0;
    while i < v.len()
        invariant
            i <= v.len(),
            *v == *old(v),
            before == v.deep_view(),
            t == id.deep_view(),
            lt == source_lt(),
            crate::sorting::strict_order(lt),
            crate::sorting::increasing(before, lt),
            forall|j: int| 0 <= j < i ==> lt(#[trigger] before[j], t),
        decreases v.len() - i,
    {
        assert(before[i as int] == v@[i as int].deep_view());
        match source_order(&v[i], &id) {
            Order::Before => {
                i = i + 1;
            },
            Order::Equal => {
                assert(before.to_set().contains(t));
                assert(before.to_set().insert(t) =~= before.to_set());
                return ;
            },
            Order::After => {
                proof {
                    assert forall|j: int| i <= j < before.len() implies lt(
                        t,
                        #[trigger] before[j],
                    ) by {
                        if j > i {
                            assert(lt(before[i as int], before[j]));
                        }
                    }
                }
                v.insert(i, id);
                proof {
                    crate::sorting::lemma_increasing_insert(before, i as int, t, lt);
                    assert(v.deep_view() =~= before.insert(i as int, t));
                }
                return ;
            },
        }
    }
    v.push(id);
    proof {
        crate::sorting::lemma_increasing_insert(before, i as int, t, lt);
        assert(v.deep_view() =~= before.insert(i as int, t));
    }
}

/// Is a snapshot listed for one of the commits?
pub open spec fn listed(
    commits: Seq<Seq<u8>>,
    lists: Map<Seq<u8>, Seq<Seq<u8>>>,
    snap: Seq<u8>,
) -> bool {
    exists|c: Seq<u8>| #[trigger]
        commits.contains(c) && lists.dom().contains(c) && lists[c].contains(snap)
}

/// The ids of commits and of the snapshots listed for them.
pub open spec fn ids_of(commits: Seq<Seq<u8>>, lists: Map<Seq<u8>, Seq<Seq<u8>>>) -> Set<SourceModel> {
    Set::new(
        |id: SourceModel|
            match id {
                SourceId::Commit(c) => commits.contains(c),
                SourceId::Snapshot(s) => listed(commits, lists, s),
            },
    )
}

/// The objects that a tip needs, in their order: its history and the snapshots
/// listed for it.
pub open spec fn closure_ids(
    objects: ObjectsModel,
    lists: Map<Seq<u8>, Seq<Seq<u8>>>,
    tip: Seq<u8>,
) -> Result<Seq<SourceModel>, Fault> {
    match crate::walk::history(readings(objects), lost_commit(), tip) {
        Err(e) => Err(e),
        Ok(commits) => Ok(ordered_ids(ids_of(commits, lists))),
    }
}

fn add_commit_ids(
    v: &mut Vec<SourceId>,
    c: CommitId,
    lists: &AssocMap<CommitId, Vec<SnapshotId>>,
    Ghost(done): Ghost<Seq<Seq<u8>>>,
)
    requires
        crate::sorting::increasing(old(v).deep_view(), source_lt()),
        old(v).deep_view().to_set() == ids_of(done, lists.deep_view()),
    ensures
        crate::sorting::increasing(final(v).deep_view(), source_lt()),
        final(v).deep_view().to_set() == ids_of(done.push(c@), lists.deep_view()),
{
    let ghost l = lists.deep_view();
    insert_id(v, SourceId::Commit(c));
    let ghost base = v.deep_view().to_set();
    match lists.get(&c) {
        None => {},
        Some(list) => {
            let ghost snaps = list.deep_view();
            let mut i: usize = 0;
            while i < list.len()
                invariant
                    i <= list@.len(),
                    snaps == list.deep_view(),
                    crate::sorting::increasing(v.deep_view(), source_lt()),
                    forall|id: SourceModel| #[trigger]
                        v.deep_view().to_set().contains(id) <==> base.contains(id) || (id matches SourceId::Snapshot(s)
                            && snaps.take(i as int).contains(s)),
                decreases list.len() - i,
            {
                let ghost before = v.deep_view().to_set();
                insert_id(v, SourceId::Snapshot(list[i]));
                proof {
                    let x = snaps[i as int];
                    assert(x == list@[i as int]@);
                    let a = snaps.take(i as int);
                    let b = snaps.take(i + 1);
                    assert(b =~= a.push(x));
                    assert forall|s: Seq<u8>| b.contains(s) <==> a.contains(s) || s == x by {
                        if a.contains(s) {
                            let k = choose|k: int| 0 <= k < a.len() && a[k] == s;
                            assert(b[k] == s);
                        }
                        assert(b[i as int] == x);
                    }
                }
                i = i + 1;
            }
            assert(snaps.take(i as int) =~= snaps);
        },
    }
    proof {
        let more = done.push(c@);
        assert forall|x: Seq<u8>| #[trigger] more.contains(x) <==> done.contains(x) || x == c@ by {
            if done.contains(x) {
                let k = choose|k: int| 0 <= k < done.len() && done[k] == x;
                assert(more[k] == x);
            }
            assert(more[done.len() as int] == c@);
        }
        assert forall|id: SourceModel| #[trigger] v.deep_view().to_set().contains(id) <==> ids_of(
            more,
            l,
        ).contains(id) by {
            match id {
                SourceId::Commit(x) => {},
                SourceId::Snapshot(s) => {
                    if ids_of(done, l).contains(id) {
                        let x = choose|x: Seq<u8>| #[trigger]
                            done.contains(x) && l.dom().contains(x) && l[x].contains(s);
                        assert(more.contains(x));
                    }
                    if l.dom().contains(c@) && l[c@].contains(s) {
                        assert(more.contains(c@));
                    }
                },
            }
        }
        assert(v.deep_view().to_set() =~= ids_of(more, l));
    }
}

/// The objects that a tip needs.
pub fn walk_objects(
    objects: &Objects,
    snap_lists: &AssocMap<CommitId, Vec<SnapshotId>>,
    tip: CommitId,
) -> (r: VersionResult<Vec<SourceId>>)
    ensures
        crate::model::outcome(r) == closure_ids(
            objects.deep_view(),
            snap_lists.deep_view(),
            tip@,
        ),
{
    let ghost o = objects.deep_view();
    let ghost l = snap_lists.deep_view();
    let ghost read = readings(o);
    let ghost lost = lost_commit();
    let ghost whole = crate::walk::history(read, lost, tip@);
    proof {
        objects.lemma_finite();
        lemma_readings_finite(o);
        lemma_source_order();
    }
    let mut walk = Walk::from_tip(tip);
    let mut ids: Vec<SourceId> = Vec::new();
    assert(ids.deep_view().to_set() =~= ids_of(walk.seen.deep_view(), l));
    loop
        invariant
            o == objects.deep_view(),
            l == snap_lists.deep_view(),
            read == readings(o),
            read.dom().finite(),
            lost == lost_commit(),
            whole == crate::walk::history(read, lost, tip@),
            crate::sorting::strict_order(source_lt()),
            crate::walk::walked(read, lost, walk.stack.deep_view(), walk.seen.deep_view())
                == whole,
            crate::sorting::increasing(ids.deep_view(), source_lt()),
            ids.deep_view().to_set() == ids_of(walk.seen.deep_view(), l),
        decreases
            read.dom().difference(walk.seen.deep_view().to_set()).len(),
    {
        let ghost stack = walk.stack.deep_view();
        let ghost seen = walk.seen.deep_view();
        proof {
            crate::walk::lemma_trimmed(read, lost, stack, seen);
        }
        let c = match walk.next() {
            Some(c) => c,
            None => {
                proof {
                    crate::sorting::lemma_increasing_unique(
                        ids.deep_view(),
                        ordered_ids(ids_of(seen, l)),
                        source_lt(),
                    );
                }
                return Ok(ids);
            },
        };
        let bytes = match objects.get(&SourceId::Commit(c)) {
            Some(b) => b,
            None => {
                return Err(VersionError::ChunkNotFound(SourceId::Commit(c).to_hex()));
            },
        };
        assert(read.dom().contains(c@));
        let commit = match decode_v2(bytes.as_slice()) {
            Ok(x) => x,
            Err(e) => {
                return Err(e);
            },
        };
        walk.follow(&commit.parents);
        add_commit_ids(&mut ids, c, snap_lists, Ghost(seen));
        proof {
            crate::walk::lemma_unseen_shrinks(read, seen, c@);
        }
    }
}

// ---------------------------------------------------------------------------
// Served remotes
// ---------------------------------------------------------------------------

/// What a remote can be asked.
#[derive(Debug)]
pub enum Request {
    GetRefs,
    HasMany(Vec<SourceId>),
    GetBatch(Vec<SourceId>),
    PutBatch(Vec<(SourceId, Vec<u8>)>, Vec<(CommitId, Vec<SnapshotId>)>),
    UpdateBranch { branch: String, commit: CommitId, force: bool },
    ReplaceRefs(RemoteRefs),
}

/// What a request stands for.
pub enum RequestModel {
    GetRefs,
    HasMany(Seq<SourceModel>),
    GetBatch(Seq<SourceModel>),
    PutBatch(Seq<ObjectModel>, Seq<ListModel>),
    UpdateBranch { branch: Seq<char>, commit: Seq<u8>, force: bool },
    ReplaceRefs(RefsModel),
}

impl DeepView for Request {
    type V = RequestModel;

    open spec fn deep_view(&self) -> RequestModel {
        match *self {
            Request::GetRefs => RequestModel::GetRefs,
            Request::HasMany(ids) => RequestModel::HasMany(ids.deep_view()),
            Request::GetBatch(ids) => RequestModel::GetBatch(ids.deep_view()),
            Request::PutBatch(objects, lists) => RequestModel::PutBatch(
                objects.deep_view(),
                lists.deep_view(),
            ),
            Request::UpdateBranch { branch, commit, force } => RequestModel::UpdateBranch {
                branch: branch@,
                commit: commit@,
                force,
            },
            Request::ReplaceRefs(refs) => RequestModel::ReplaceRefs(refs.deep_view()),
        }
    }
}

/// What a remote answers.
#[derive(Debug)]
pub enum Response {
    Refs(Vec<u8>),
    Presence(Vec<bool>),
    Objects(Vec<(SourceId, Vec<u8>)>),
    Done,
}

/// What a response stands for.
pub enum ResponseModel {
    Refs(Seq<u8>),
    Presence(Seq<bool>),
    Objects(Seq<ObjectModel>),
    Done,
}

impl DeepView for Response {
    type V = ResponseModel;

    open spec fn deep_view(&self) -> ResponseModel {
        match *self {
            Response::Refs(b) => ResponseModel::Refs(b@),
            Response::Presence(p) => ResponseModel::Presence(p@),
            Response::Objects(o) => ResponseModel::Objects(o.deep_view()),
            Response::Done => ResponseModel::Done,
        }
    }
}

/// A remote in memory.
pub struct MemEndpoint {
    pub refs: RemoteRefs,
    pub objects: Objects,
    pub snap_lists: AssocMap<CommitId, Vec<SnapshotId>>,
    /// Does the remote ask for credentials?
    pub auth_required: bool,
}

/// What a remote in memory stands for.
pub struct EndpointModel {
    pub refs: RefsModel,
    pub objects: ObjectsModel,
    pub snap_lists: Map<Seq<u8>, Seq<Seq<u8>>>,
    pub auth_required: bool,
}

impl DeepView for MemEndpoint {
    type V = EndpointModel;

    open spec fn deep_view(&self) -> EndpointModel {
        EndpointModel {
            refs: self.refs.deep_view(),
            objects: self.objects.deep_view(),
            snap_lists: self.snap_lists.deep_view(),
            auth_required: self.auth_required,
        }
    }
}

impl Dup for MemEndpoint {
    fn dup(&self) -> (r: Self) {
        MemEndpoint {
            refs: self.refs.dup(),
            objects: self.objects.dup(),
            snap_lists: self.snap_lists.dup(),
            auth_required: self.auth_required,
        }
    }
}

/// A remote without branches and objects.
pub open spec fn empty_endpoint(default_branch: Seq<char>, auth_required: bool) -> EndpointModel {
    EndpointModel {
        refs: RefsModel { default_branch, branches: seq![] },
        objects: Map::empty(),
        snap_lists: Map::empty(),
        auth_required,
    }
}

impl MemEndpoint {
    /// A remote without branches and objects.
    pub fn new(default_branch: &str) -> (r: Self)
        ensures
            r.deep_view() == empty_endpoint(default_branch@, false),
    {
        let r = MemEndpoint {
            refs: RemoteRefs { default_branch: default_branch.to_owned(), branches: Vec::new() },
            objects: AssocMap::new(),
            snap_lists: AssocMap::new(),
            auth_required: false,
        };
        assert(r.refs.branches.deep_view() =~= seq![]);
        r
    }
}

/// A map with more entries; later ones win.
pub open spec fn put_all<A, B>(m: Map<A, B>, entries: Seq<(A, B)>) -> Map<A, B>
    decreases entries.len(),
{
    if entries.len() == 0 {
        m
    } else {
        put_all(m, entries.drop_last()).insert(entries.last().0, entries.last().1)
    }
}

/// The objects of a list of ids from place `i` on, behind those found; the first
/// id without an object is an error.
pub open spec fn found_from(
    objects: ObjectsModel,
    ids: Seq<SourceModel>,
    i: int,
    found: Seq<ObjectModel>,
) -> Result<Seq<ObjectModel>, Fault>
    decreases ids.len() - i,
{
    if i >= ids.len() {
        Ok(found)
    } else if !objects.dom().contains(ids[i]) {
        Err(lost_object(ids[i]))
    } else {
        found_from(objects, ids, i + 1, found.push((ids[i], objects[ids[i]])))
    }
}

/// The place of a branch in a branch table.
pub open spec fn branch_at(branches: Seq<(Seq<char>, Seq<u8>)>, name: Seq<char>) -> Option<int>
    decreases branches.len(),
{
    if branches.len() == 0 {
        None
    } else {
        match branch_at(branches.drop_last(), name) {
            Some(i) => Some(i),
            None => if branches.last().0 == name {
                Some(branches.len() - 1)
            } else {
                None
            },
        }
    }
}

/// The tip of a branch.
pub open spec fn tip_of(branches: Seq<(Seq<char>, Seq<u8>)>, name: Seq<char>) -> Option<Seq<u8>> {
    match branch_at(branches, name) {
        Some(i) => Some(branches[i].1),
        None => None,
    }
}

/// A branch table with a branch at a commit.
pub open spec fn branch_moved(refs: RefsModel, name: Seq<char>, commit: Seq<u8>) -> RefsModel {
    RefsModel {
        branches: match branch_at(refs.branches, name) {
            Some(i) => refs.branches.update(i, (name, commit)),
            None => refs.branches.push((name, commit)),
        },
        ..refs
    }
}

/// May a branch move to a commit? Without force the commit's history has to hold
/// the branch's tip.
pub open spec fn may_move(
    objects: ObjectsModel,
    tip: Option<Seq<u8>>,
    commit: Seq<u8>,
    force: bool,
) -> bool {
    match tip {
        None => true,
        Some(t) => force || t == commit || crate::reach::reaches(
            object_links(objects),
            set![commit],
            t,
        ),
    }
}

/// A remote after one request, and its answer.
pub open spec fn served(ep: EndpointModel, req: RequestModel, kid: Option<Seq<char>>) -> (
    EndpointModel,
    Result<ResponseModel, Fault>,
) {
    if ep.auth_required && kid is None {
        (ep, Err(VersionError::NoCredentials))
    } else {
        match req {
            RequestModel::GetRefs => (
                ep,
                Ok(ResponseModel::Refs(crate::remote_wire::refs_bytes(ep.refs))),
            ),
            RequestModel::HasMany(ids) => (
                ep,
                Ok(
                    ResponseModel::Presence(
                        ids.map_values(|id: SourceModel| ep.objects.dom().contains(id)),
                    ),
                ),
            ),
            RequestModel::GetBatch(ids) => match found_from(ep.objects, ids, 0, seq![]) {
                Ok(found) => (ep, Ok(ResponseModel::Objects(found))),
                Err(e) => (ep, Err(e)),
            },
            RequestModel::PutBatch(objects, lists) => (
                EndpointModel {
                    objects: put_all(ep.objects, objects),
                    snap_lists: put_all(ep.snap_lists, lists),
                    ..ep
                },
                Ok(ResponseModel::Done),
            ),
            RequestModel::UpdateBranch { branch, commit, force } => if may_move(
                ep.objects,
                tip_of(ep.refs.branches, branch),
                commit,
                force,
            ) {
                (
                    EndpointModel { refs: branch_moved(ep.refs, branch, commit), ..ep },
                    Ok(ResponseModel::Done),
                )
            } else {
                (ep, Err(VersionError::PushNotFastForward))
            },
            RequestModel::ReplaceRefs(refs) => (
                EndpointModel { refs, ..ep },
                Ok(ResponseModel::Done),
            ),
        }
    }
}

fn put_entries<K: Same + Dup, T: Dup>(m: &mut AssocMap<K, T>, entries: &Vec<(K, T)>)
    ensures
        final(m).deep_view() == put_all(old(m).deep_view(), entries.deep_view()),
{
    let ghost start = m.deep_view();
    let ghost e = entries.deep_view();
    let mut i: usize = 0;
    assert(e.take(0) =~= seq![]);
    while i < entries.len()
        invariant
            i <= entries@.len(),
            e == entries.deep_view(),
            m.deep_view() == put_all(start, e.take(i as int)),
        decreases entries.len() - i,
    {
        m.insert(entries[i].0.dup(), entries[i].1.dup());
        proof {
            assert(e[i as int] == entries@[i as int].deep_view());
            assert(e.take(i + 1).drop_last() =~= e.take(i as int));
        }
        i = i + 1;
    }
    assert(e.take(i as int) =~= e);
}

fn find_branch_at(branches: &Vec<(String, CommitId)>, name: &str) -> (r: Option<usize>)
    ensures
        match branch_at(branches.deep_view(), name@) {
            Some(i) => r matches Some(k) && k == i && k < branches@.len()
                && branches.deep_view()[i].0 == name@,
            None => r is None,
        },
{
    let ghost b = branches.deep_view();
    let mut i: usize = 0;
    assert(b.take(0) =~= seq![]);
    while i < branches.len()
        invariant
            i <= branches@.len(),
            b == branches.deep_view(),
            branch_at(b.take(i as int), name@) is None,
        decreases branches.len() - i,
    {
        proof {
            assert(b.take(i + 1).drop_last() =~= b.take(i as int));
            assert(b.take(i + 1).last() == branches@[i as int].deep_view());
        }
        if str_eq(branches[i].0.as_str(), name) {
            proof {
                lemma_branch_at_prefix(b, name@, i + 1);
            }
            return Some(i);
        }
        i = i + 1;
    }
    assert(b.take(i as int) =~= b);
    None
}

proof fn lemma_branch_at_prefix(b: Seq<(Seq<char>, Seq<u8>)>, name: Seq<char>, n: int)
    requires
        0 <= n <= b.len(),
        branch_at(b.take(n), name) is Some,
    ensures
        branch_at(b, name) == branch_at(b.take(n), name),
    decreases b.len() - n,
{
    if n == b.len() {
        assert(b.take(n) =~= b);
    } else {
        assert(b.take(n + 1).drop_last() =~= b.take(n));
        lemma_branch_at_prefix(b, name, n + 1);
    }
}

/// Move a branch of a branch table, or add it.
pub fn move_branch(refs: &mut RemoteRefs, name: &str, commit: CommitId)
    ensures
        final(refs).deep_view() == branch_moved(old(refs).deep_view(), name@, commit@),
{
    let ghost b = refs.branches.deep_view();
    match find_branch_at(&refs.branches, name) {
        Some(i) => {
            refs.branches[i] = (name.to_owned(), commit);
            assert(refs.branches.deep_view() =~= b.update(i as int, (name@, commit@)));
        },
        None => {
            refs.branches.push((name.to_owned(), commit));
            assert(refs.branches.deep_view() =~= b.push((name@, commit@)));
        },
    }
}

/// The tip of a branch of a branch table.
pub fn branch_tip(refs: &RemoteRefs, name: &str) -> (r: Option<CommitId>)
    ensures
        r.deep_view() == tip_of(refs.deep_view().branches, name@),
{
    match find_branch_at(&refs.branches, name) {
        Some(i) => {
            assert(refs.branches.deep_view()[i as int] == refs.branches@[i as int].deep_view());
            Some(refs.branches[i].1)
        },
        None => None,
    }
}

fn presence_of(objects: &Objects, ids: &Vec<SourceId>) -> (r: Vec<bool>)
    ensures
        r@ == ids.deep_view().map_values(
            |id: SourceModel| objects.deep_view().dom().contains(id),
        ),
{
    let mut out: Vec<bool> = Vec::new();
    let mut i: usize = 0;
    while i < ids.len()
        invariant
            i <= ids@.len(),
            out@.len() == i,
            forall|j: int|
                0 <= j < i ==> #[trigger] out@[j] == objects.deep_view().dom().contains(
                    ids.deep_view()[j],
                ),
        decreases ids.len() - i,
    {
        assert(ids.deep_view()[i as int] == ids@[i as int].deep_view());
        out.push(objects.contains(&ids[i]));
        i = i + 1;
    }
    assert(out@ =~= ids.deep_view().map_values(
        |id: SourceModel| objects.deep_view().dom().contains(id),
    ));
    out
}

fn find_objects(objects: &Objects, ids: &Vec<SourceId>) -> (r: VersionResult<
    Vec<(SourceId, Vec<u8>)>,
>)
    ensures
        crate::model::outcome(r) == found_from(
            objects.deep_view(),
            ids.deep_view(),
            0,
            seq![],
        ),
{
    let ghost o = objects.deep_view();
    let ghost l = ids.deep_view();
    let mut out: Vec<(SourceId, Vec<u8>)> = Vec::new();
    let mut i: usize = 0;
    assert(out.deep_view() =~= seq![]);
    while i < ids.len()
        invariant
            i <= ids@.len(),
            o == objects.deep_view(),
            l == ids.deep_view(),
            found_from(o, l, i as int, out.deep_view()) == found_from(o, l, 0, seq![]),
        decreases ids.len() - i,
    {
        let ghost before = out.deep_view();
        assert(l[i as int] == ids@[i as int].deep_view());
        match objects.get(&ids[i]) {
            Some(bytes) => {
                out.push((ids[i], bytes.dup()));
                assert(out.deep_view() =~= before.push((l[i as int], o[l[i as int]])));
            },
            None => {
                return Err(VersionError::ChunkNotFound(ids[i].to_hex()));
            },
        }
        i = i + 1;
    }
    Ok(out)
}

/// Serve one request. A remote that asks for credentials refuses a caller without
/// one.
pub fn serve(endpoint: &mut MemEndpoint, req: Request, active_kid: Option<&str>) -> (r:
    VersionResult<Response>)
    ensures
        ({
            let kid = match active_kid {
                Some(k) => Some(k@),
                None => None,
            };
            let (ep, out) = served(old(endpoint).deep_view(), req.deep_view(), kid);
            final(endpoint).deep_view() == ep && crate::model::outcome(r) == out
        }),
{
    if endpoint.auth_required && active_kid.is_none() {
        return Err(VersionError::NoCredentials);
    }
    match req {
        Request::GetRefs => Ok(Response::Refs(encode_refs(&endpoint.refs))),
        Request::HasMany(ids) => Ok(Response::Presence(presence_of(&endpoint.objects, &ids))),
        Request::GetBatch(ids) => match find_objects(&endpoint.objects, &ids) {
            Ok(found) => Ok(Response::Objects(found)),
            Err(e) => Err(e),
        },
        Request::PutBatch(objects, lists) => {
            put_entries(&mut endpoint.objects, &objects);
            put_entries(&mut endpoint.snap_lists, &lists);
            Ok(Response::Done)
        },
        Request::UpdateBranch { branch, commit, force } => {
            let allowed = match branch_tip(&endpoint.refs, branch.as_str()) {
                None => true,
                Some(tip) => force || tip == commit || is_ancestor(&endpoint.objects, tip, commit),
            };
            if !allowed {
                return Err(VersionError::PushNotFastForward);
            }
            move_branch(&mut endpoint.refs, branch.as_str(), commit);
            Ok(Response::Done)
        },
        Request::ReplaceRefs(refs) => {
            endpoint.refs = refs;
            Ok(Response::Done)
        },
    }
}

// ---------------------------------------------------------------------------
// Transports
// ---------------------------------------------------------------------------

/// Everything that a remote command can ask of a remote. A transport is in some
/// state; what it answers, and its state afterwards, follow from the state before
/// and the question. That binds every transport, also one that leaves open how: where
/// its answers come from somewhere else, such as a directory, the state stands for
/// what is there, and holds as long as nobody else writes to it.
pub trait RemoteTransport: Sized {
    type State;

    open spec fn state(&self) -> Self::State {
        arbitrary()
    }

    open spec fn refs_said(s: Self::State) -> (Self::State, Result<Seq<u8>, Fault>) {
        arbitrary()
    }

    open spec fn default_said(s: Self::State) -> (Self::State, Result<Seq<char>, Fault>) {
        arbitrary()
    }

    open spec fn branch_said(s: Self::State, branch: Seq<char>) -> (
        Self::State,
        Result<Option<Seq<u8>>, Fault>,
    ) {
        arbitrary()
    }

    open spec fn walk_said(s: Self::State, tip: Seq<u8>) -> (
        Self::State,
        Result<Seq<SourceModel>, Fault>,
    ) {
        arbitrary()
    }

    open spec fn presence_said(s: Self::State, ids: Seq<SourceModel>) -> (
        Self::State,
        Result<Seq<bool>, Fault>,
    ) {
        arbitrary()
    }

    open spec fn batch_said(s: Self::State, ids: Seq<SourceModel>) -> (
        Self::State,
        Result<Seq<ObjectModel>, Fault>,
    ) {
        arbitrary()
    }

    open spec fn put_said(s: Self::State, objects: Seq<ObjectModel>, lists: Seq<ListModel>) -> (
        Self::State,
        Result<(), Fault>,
    ) {
        arbitrary()
    }

    open spec fn update_said(s: Self::State, branch: Seq<char>, commit: Seq<u8>, force: bool) -> (
        Self::State,
        Result<(), Fault>,
    ) {
        arbitrary()
    }

    open spec fn replace_said(s: Self::State, refs: RefsModel) -> (Self::State, Result<(), Fault>) {
        arbitrary()
    }

    /// The bytes of the branch table.
    fn get_refs(&mut self) -> (r: VersionResult<Vec<u8>>)
        ensures
            Self::refs_said(old(self).state()) == (
                final(self).state(),
                crate::model::outcome(r),
            ),
    ;

    /// The name of the default branch.
    fn default_branch(&mut self) -> (r: VersionResult<String>)
        ensures
            Self::default_said(old(self).state()) == (
                final(self).state(),
                crate::model::outcome(r),
            ),
    ;

    /// The tip of a branch; none where the remote lacks it.
    fn find_branch(&mut self, branch: &str) -> (r: VersionResult<Option<CommitId>>)
        ensures
            Self::branch_said(old(self).state(), branch@) == (
                final(self).state(),
                crate::model::outcome(r),
            ),
    ;

    /// The objects that a tip needs.
    fn walk(&mut self, tip: CommitId) -> (r: VersionResult<Vec<SourceId>>)
        ensures
            Self::walk_said(old(self).state(), tip@) == (
                final(self).state(),
                crate::model::outcome(r),
            ),
    ;

    /// Which of the objects does the remote hold?
    fn has_many(&mut self, ids: &Vec<SourceId>) -> (r: VersionResult<Vec<bool>>)
        ensures
            Self::presence_said(old(self).state(), ids.deep_view()) == (
                final(self).state(),
                match r {
                    Ok(v) => Ok(v@),
                    Err(e) => Err(e.deep_view()),
                },
            ),
    ;

    /// Objects by id. The caller checks each before storing it anywhere.
    fn get_batch(&mut self, ids: &Vec<SourceId>) -> (r: VersionResult<Vec<(SourceId, Vec<u8>)>>)
        ensures
            Self::batch_said(old(self).state(), ids.deep_view()) == (
                final(self).state(),
                crate::model::outcome(r),
            ),
    ;

    /// Store objects, then the snapshot lists of commits. Objects go before any
    /// branch moves, so that no branch names what is not there.
    fn put_batch(
        &mut self,
        objects: &Vec<(SourceId, Vec<u8>)>,
        snap_lists: &Vec<(CommitId, Vec<SnapshotId>)>,
    ) -> (r: VersionResult<()>)
        ensures
            Self::put_said(old(self).state(), objects.deep_view(), snap_lists.deep_view()) == (
                final(self).state(),
                crate::model::outcome(r),
            ),
    ;

    /// Move a branch. Without force the commit's history has to hold the tip.
    fn update_branch(&mut self, branch: &str, commit: CommitId, force: bool) -> (r:
        VersionResult<()>)
        ensures
            Self::update_said(old(self).state(), branch@, commit@, force) == (
                final(self).state(),
                crate::model::outcome(r),
            ),
    ;

    /// Replace the branch table.
    fn replace_refs(&mut self, refs: &RemoteRefs) -> (r: VersionResult<()>)
        ensures
            Self::replace_said(old(self).state(), refs.deep_view()) == (
                final(self).state(),
                crate::model::outcome(r),
            ),
    ;
}

/// A transport to a remote in memory, with the credential of the caller.
pub struct MemTransport {
    pub endpoint: MemEndpoint,
    pub kid: Option<String>,
}

/// What a transport to a remote in memory stands for.
pub struct MemModel {
    pub endpoint: EndpointModel,
    pub kid: Option<Seq<char>>,
}

impl DeepView for MemTransport {
    type V = MemModel;

    open spec fn deep_view(&self) -> MemModel {
        MemModel { endpoint: self.endpoint.deep_view(), kid: self.kid.deep_view() }
    }
}

/// The remote after a request through a transport, and its answer.
pub open spec fn asked(s: MemModel, req: RequestModel) -> (MemModel, Result<ResponseModel, Fault>) {
    let (endpoint, out) = served(s.endpoint, req, s.kid);
    (MemModel { endpoint, ..s }, out)
}

/// The bytes of a branch table in an answer.
pub open spec fn refs_in(out: Result<ResponseModel, Fault>) -> Result<Seq<u8>, Fault> {
    match out {
        Err(e) => Err(e),
        Ok(ResponseModel::Refs(b)) => Ok(b),
        Ok(_) => Ok(seq![]),
    }
}

/// A branch table in bytes.
pub open spec fn table_in_bytes(out: Result<Seq<u8>, Fault>) -> Result<RefsModel, Fault> {
    match out {
        Err(e) => Err(e),
        Ok(b) => match crate::remote_wire::read_refs(b) {
            Some(refs) => Ok(refs),
            None => Err(VersionError::FailedReadRemoteRefs),
        },
    }
}

/// An answer that only says whether it went well.
pub open spec fn went_well(out: Result<ResponseModel, Fault>) -> Result<(), Fault> {
    match out {
        Err(e) => Err(e),
        Ok(_) => Ok(()),
    }
}

impl MemTransport {
    fn ask(&mut self, req: Request) -> (r: VersionResult<Response>)
        ensures
            ({
                let (s, out) = asked(old(self).deep_view(), req.deep_view());
                final(self).deep_view() == s && crate::model::outcome(r) == out
            }),
    {
        match &self.kid {
            Some(k) => serve(&mut self.endpoint, req, Some(k.as_str())),
            None => serve(&mut self.endpoint, req, None),
        }
    }

    fn table(&mut self) -> (r: VersionResult<RemoteRefs>)
        ensures
            final(self).deep_view() == old(self).deep_view(),
            crate::model::outcome(r) == table_in_bytes(
                refs_in(asked(old(self).deep_view(), RequestModel::GetRefs).1),
            ),
    {
        match self.get_refs() {
            Ok(blob) => decode_refs(blob.as_slice()),
            Err(e) => Err(e),
        }
    }
}

impl RemoteTransport for MemTransport {
    type State = MemModel;

    open spec fn state(&self) -> MemModel {
        self.deep_view()
    }

    open spec fn refs_said(s: MemModel) -> (MemModel, Result<Seq<u8>, Fault>) {
        (s, refs_in(asked(s, RequestModel::GetRefs).1))
    }

    open spec fn default_said(s: MemModel) -> (MemModel, Result<Seq<char>, Fault>) {
        (
            s,
            match table_in_bytes(refs_in(asked(s, RequestModel::GetRefs).1)) {
                Ok(refs) => Ok(refs.default_branch),
                Err(e) => Err(e),
            },
        )
    }

    open spec fn branch_said(s: MemModel, branch: Seq<char>) -> (
        MemModel,
        Result<Option<Seq<u8>>, Fault>,
    ) {
        (
            s,
            match table_in_bytes(refs_in(asked(s, RequestModel::GetRefs).1)) {
                Ok(refs) => Ok(tip_of(refs.branches, branch)),
                Err(e) => Err(e),
            },
        )
    }

    open spec fn walk_said(s: MemModel, tip: Seq<u8>) -> (MemModel, Result<Seq<SourceModel>, Fault>) {
        (
            s,
            if s.endpoint.auth_required && s.kid is None {
                Err(VersionError::NoCredentials)
            } else {
                closure_ids(s.endpoint.objects, s.endpoint.snap_lists, tip)
            },
        )
    }

    open spec fn presence_said(s: MemModel, ids: Seq<SourceModel>) -> (
        MemModel,
        Result<Seq<bool>, Fault>,
    ) {
        (
            s,
            match asked(s, RequestModel::HasMany(ids)).1 {
                Err(e) => Err(e),
                Ok(ResponseModel::Presence(p)) => Ok(p),
                Ok(_) => Ok(seq![]),
            },
        )
    }

    open spec fn batch_said(s: MemModel, ids: Seq<SourceModel>) -> (
        MemModel,
        Result<Seq<ObjectModel>, Fault>,
    ) {
        (
            s,
            match asked(s, RequestModel::GetBatch(ids)).1 {
                Err(e) => Err(e),
                Ok(ResponseModel::Objects(o)) => Ok(o),
                Ok(_) => Ok(seq![]),
            },
        )
    }

    open spec fn put_said(s: MemModel, objects: Seq<ObjectModel>, lists: Seq<ListModel>) -> (
        MemModel,
        Result<(), Fault>,
    ) {
        let (t, out) = asked(s, RequestModel::PutBatch(objects, lists));
        (t, went_well(out))
    }

    open spec fn update_said(s: MemModel, branch: Seq<char>, commit: Seq<u8>, force: bool) -> (
        MemModel,
        Result<(), Fault>,
    ) {
        let (t, out) = asked(s, RequestModel::UpdateBranch { branch, commit, force });
        (t, went_well(out))
    }

    open spec fn replace_said(s: MemModel, refs: RefsModel) -> (MemModel, Result<(), Fault>) {
        let (t, out) = asked(s, RequestModel::ReplaceRefs(refs));
        (t, went_well(out))
    }

    fn get_refs(&mut self) -> (r: VersionResult<Vec<u8>>) {
        match self.ask(Request::GetRefs) {
            Ok(Response::Refs(blob)) => Ok(blob),
            Ok(_) => Ok(Vec::new()),
            Err(e) => Err(e),
        }
    }

    fn default_branch(&mut self) -> (r: VersionResult<String>) {
        match self.table() {
            Ok(refs) => Ok(refs.default_branch),
            Err(e) => Err(e),
        }
    }

    fn find_branch(&mut self, branch: &str) -> (r: VersionResult<Option<CommitId>>) {
        match self.table() {
            Ok(refs) => Ok(branch_tip(&refs, branch)),
            Err(e) => Err(e),
        }
    }

    fn walk(&mut self, tip: CommitId) -> (r: VersionResult<Vec<SourceId>>) {
        if self.endpoint.auth_required && self.kid.is_none() {
            return Err(VersionError::NoCredentials);
        }
        walk_objects(&self.endpoint.objects, &self.endpoint.snap_lists, tip)
    }

    fn has_many(&mut self, ids: &Vec<SourceId>) -> (r: VersionResult<Vec<bool>>) {
        match self.ask(Request::HasMany(ids.dup())) {
            Ok(Response::Presence(present)) => Ok(present),
            Ok(_) => Ok(Vec::new()),
            Err(e) => Err(e),
        }
    }

    fn get_batch(&mut self, ids: &Vec<SourceId>) -> (r: VersionResult<Vec<(SourceId, Vec<u8>)>>) {
        match self.ask(Request::GetBatch(ids.dup())) {
            Ok(Response::Objects(objects)) => Ok(objects),
            Ok(_) => Ok(Vec::new()),
            Err(e) => Err(e),
        }
    }

    fn put_batch(
        &mut self,
        objects: &Vec<(SourceId, Vec<u8>)>,
        snap_lists: &Vec<(CommitId, Vec<SnapshotId>)>,
    ) -> (r: VersionResult<()>) {
        match self.ask(Request::PutBatch(objects.dup(), snap_lists.dup())) {
            Ok(_) => Ok(()),
            Err(e) => Err(e),
        }
    }

    fn update_branch(&mut self, branch: &str, commit: CommitId, force: bool) -> (r:
        VersionResult<()>) {
        match self.ask(Request::UpdateBranch { branch: branch.to_owned(), commit, force }) {
            Ok(_) => Ok(()),
            Err(e) => Err(e),
        }
    }

    fn replace_refs(&mut self, refs: &RemoteRefs) -> (r: VersionResult<()>) {
        match self.ask(Request::ReplaceRefs(refs.dup())) {
            Ok(_) => Ok(()),
            Err(e) => Err(e),
        }
    }
}

/// The remotes in memory, by name.
pub struct MemHub {
    pub endpoints: AssocMap<String, MemEndpoint>,
}

impl DeepView for MemHub {
    type V = Map<Seq<char>, EndpointModel>;

    open spec fn deep_view(&self) -> Map<Seq<char>, EndpointModel> {
        self.endpoints.deep_view()
    }
}

/// The remote of a name after it was opened: a new one, or the one there is. Once
/// asked for, credentials stay asked for.
pub open spec fn opened(
    hub: Map<Seq<char>, EndpointModel>,
    name: Seq<char>,
    auth_required: bool,
) -> EndpointModel {
    if !hub.dom().contains(name) {
        empty_endpoint("main"@, auth_required)
    } else {
        EndpointModel { auth_required: auth_required || hub[name].auth_required, ..hub[name] }
    }
}

impl MemHub {
    pub fn new() -> (r: Self)
        ensures
            r.deep_view() == Map::<Seq<char>, EndpointModel>::empty(),
    {
        MemHub { endpoints: AssocMap::new() }
    }

    /// Put the remote of a transport back under its name.
    pub fn keep(&mut self, name: &str, transport: MemTransport)
        ensures
            final(self).deep_view() == old(self).deep_view().insert(
                name@,
                transport.deep_view().endpoint,
            ),
    {
        self.endpoints.insert(name.to_owned(), transport.endpoint);
    }
}

impl MemTransport {
    /// Open the remote of a name, with the credential of the caller.
    pub fn open(hub: &mut MemHub, name: &str, auth_required: bool, kid: Option<String>) -> (r: Self)
        ensures
            r.deep_view() == (MemModel {
                endpoint: opened(old(hub).deep_view(), name@, auth_required),
                kid: kid.deep_view(),
            }),
            final(hub).deep_view() == old(hub).deep_view().insert(
                name@,
                opened(old(hub).deep_view(), name@, auth_required),
            ),
    {
        let key = name.to_owned();
        let mut endpoint = match hub.endpoints.get(&key) {
            Some(ep) => ep.dup(),
            None => MemEndpoint::new("main"),
        };
        if auth_required {
            endpoint.auth_required = true;
        }
        hub.endpoints.insert(key, endpoint.dup());
        MemTransport { endpoint, kid }
    }
}

// ---------------------------------------------------------------------------
// Addresses
// ---------------------------------------------------------------------------

/// Where a URL leads, over the type of a text.
#[derive(Debug, Clone, PartialEq, Eq)]
pub enum RemoteUrl<S = String> {
    /// A directory.
    File(S),
    /// A remote in memory.
    Mem { name: S, auth_required: bool },
}

impl DeepView for RemoteUrl {
    type V = RemoteUrl<Seq<char>>;

    open spec fn deep_view(&self) -> RemoteUrl<Seq<char>> {
        match *self {
            RemoteUrl::File(path) => RemoteUrl::File(path@),
            RemoteUrl::Mem { name, auth_required } => RemoteUrl::Mem { name: name@, auth_required },
        }
    }
}

/// The part of a `mem://` URL behind the scheme.
pub open spec fn mem_url(rest: Seq<char>) -> Option<RemoteUrl<Seq<char>>> {
    match crate::text::split_once(rest, seq!['?']) {
        None => if rest.len() == 0 {
            None
        } else {
            Some(RemoteUrl::Mem { name: rest, auth_required: false })
        },
        Some((name, query)) => if name.len() > 0 && query == "auth=required"@ {
            Some(RemoteUrl::Mem { name, auth_required: true })
        } else {
            None
        },
    }
}

/// Where a URL leads. Schemes other than `file` and `mem` lead nowhere.
pub open spec fn url_target(url: Seq<char>) -> Option<RemoteUrl<Seq<char>>> {
    match crate::text::split_once(url, seq![':', '/', '/']) {
        None => None,
        Some((scheme, rest)) => if scheme == "file"@ {
            Some(RemoteUrl::File(rest))
        } else if scheme == "mem"@ {
            mem_url(rest)
        } else {
            None
        },
    }
}

fn open_mem(rest: String) -> (r: VersionResult<RemoteUrl>)
    ensures
        match mem_url(rest@) {
            Some(t) => r matches Ok(x) && x.deep_view() == t,
            None => r matches Err(e) && e is BadRemoteUrl,
        },
{
    let mut mark: Vec<char> = Vec::new();
    mark.push('?');
    assert(mark@ =~= seq!['?']);
    match cut_once(rest.as_str(), &mark) {
        None => {
            if rest.as_str().is_empty() {
                return Err(VersionError::BadRemoteUrl);
            }
            Ok(RemoteUrl::Mem { name: rest, auth_required: false })
        },
        Some((name, query)) => {
            if name.as_str().is_empty() || !str_eq(query.as_str(), "auth=required") {
                return Err(VersionError::BadRemoteUrl);
            }
            Ok(RemoteUrl::Mem { name, auth_required: true })
        },
    }
}

/// Which transport a URL asks for. `file://<path>` and
/// `mem://<name>[?auth=required]` are accepted and everything else is refused.
pub fn open_transport(url: &str) -> (r: VersionResult<RemoteUrl>)
    ensures
        match url_target(url@) {
            Some(t) => r matches Ok(x) && x.deep_view() == t,
            None => r matches Err(e) && e is BadRemoteUrl,
        },
{
    let mut mark: Vec<char> = Vec::new();
    mark.push(':');
    mark.push('/');
    mark.push('/');
    assert(mark@ =~= seq![':', '/', '/']);
    match cut_once(url, &mark) {
        None => Err(VersionError::BadRemoteUrl),
        Some((scheme, rest)) => {
            if str_eq(scheme.as_str(), "file") {
                Ok(RemoteUrl::File(rest))
            } else if str_eq(scheme.as_str(), "mem") {
                open_mem(rest)
            } else {
                Err(VersionError::BadRemoteUrl)
            }
        },
    }
}

// ---------------------------------------------------------------------------
// Laws
// ---------------------------------------------------------------------------

/// A remote that asks for credentials refuses every request without one, and the
/// refusal changes nothing.
pub proof fn law_credentials_are_asked_for(ep: EndpointModel, req: RequestModel)
    requires
        ep.auth_required,
    ensures
        served(ep, req, None) == (
            ep,
            Err::<ResponseModel, Fault>(VersionError::NoCredentials),
        ),
{
}

/// Without force a branch moves only to a commit whose history holds the tip it
/// had.
pub proof fn law_unforced_update_is_a_fast_forward(
    ep: EndpointModel,
    branch: Seq<char>,
    commit: Seq<u8>,
    kid: Option<Seq<char>>,
    tip: Seq<u8>,
)
    requires
        tip_of(ep.refs.branches, branch) == Some(tip),
        served(
            ep,
            RequestModel::UpdateBranch { branch, commit, force: false },
            kid,
        ).1 is Ok,
    ensures
        tip == commit || crate::reach::reaches(object_links(ep.objects), set![commit], tip),
{
}

/// A branch that moved is where it moved to, and the other branches are where
/// they were.
pub proof fn law_branch_moves_alone(refs: RefsModel, name: Seq<char>, commit: Seq<u8>, other: Seq<char>)
    ensures
        tip_of(branch_moved(refs, name, commit).branches, name) == Some(commit),
        other != name ==> tip_of(branch_moved(refs, name, commit).branches, other) == tip_of(
            refs.branches,
            other,
        ),
{
    let b = refs.branches;
    lemma_branch_at(b, name);
    lemma_branch_at(b, other);
    let m = branch_moved(refs, name, commit).branches;
    match branch_at(b, name) {
        Some(i) => {
            lemma_branch_first(m, name, i);
            match branch_at(b, other) {
                Some(k) => {
                    if other != name {
                        lemma_branch_first(m, other, k);
                    }
                },
                None => {
                    if other != name {
                        lemma_branch_absent(m, other);
                    }
                },
            }
        },
        None => {
            lemma_branch_first(m, name, b.len() as int);
            match branch_at(b, other) {
                Some(k) => {
                    lemma_branch_first(m, other, k);
                },
                None => {
                    if other != name {
                        lemma_branch_absent(m, other);
                    }
                },
            }
        },
    }
}

/// Where a branch stands: the first entry of its name.
pub proof fn lemma_branch_at(b: Seq<(Seq<char>, Seq<u8>)>, name: Seq<char>)
    ensures
        match branch_at(b, name) {
            Some(i) => 0 <= i < b.len() && b[i].0 == name && forall|j: int|
                0 <= j < i ==> (#[trigger] b[j]).0 != name,
            None => forall|j: int| 0 <= j < b.len() ==> (#[trigger] b[j]).0 != name,
        },
    decreases b.len(),
{
    if b.len() > 0 {
        let d = b.drop_last();
        lemma_branch_at(d, name);
        assert forall|j: int| 0 <= j < d.len() implies d[j] == #[trigger] b[j] by {}
    }
}

/// The first entry of a name is where the branch stands.
pub proof fn lemma_branch_first(b: Seq<(Seq<char>, Seq<u8>)>, name: Seq<char>, i: int)
    requires
        0 <= i < b.len(),
        b[i].0 == name,
        forall|j: int| 0 <= j < i ==> (#[trigger] b[j]).0 != name,
    ensures
        branch_at(b, name) == Some(i),
{
    lemma_branch_at(b, name);
    match branch_at(b, name) {
        Some(k) => {
            if k < i {
                assert(b[k].0 != name);
            }
            if i < k {
                assert(b[i].0 != name);
            }
        },
        None => {
            assert(b[i].0 != name);
        },
    }
}

proof fn lemma_branch_absent(b: Seq<(Seq<char>, Seq<u8>)>, name: Seq<char>)
    requires
        forall|j: int| 0 <= j < b.len() ==> (#[trigger] b[j]).0 != name,
    ensures
        branch_at(b, name) is None,
{
    lemma_branch_at(b, name);
}

/// What a map holds after more entries went in.
pub proof fn lemma_put_all<A, B>(m: Map<A, B>, entries: Seq<(A, B)>, k: A)
    ensures
        put_all(m, entries).dom().contains(k) <==> m.dom().contains(k) || exists|j: int|
            0 <= j < entries.len() && (#[trigger] entries[j]).0 == k,
        put_all(m, entries).dom().contains(k) ==> {
            ||| m.dom().contains(k) && put_all(m, entries)[k] == m[k]
            ||| exists|j: int|
                0 <= j < entries.len() && #[trigger] entries[j] == (k, put_all(m, entries)[k])
        },
        (exists|j: int| 0 <= j < entries.len() && (#[trigger] entries[j]).0 == k) ==> exists|j: int|
            0 <= j < entries.len() && #[trigger] entries[j] == (k, put_all(m, entries)[k]),
    decreases entries.len(),
{
    if entries.len() > 0 {
        let d = entries.drop_last();
        lemma_put_all(m, d, k);
        let n = entries.len() - 1;
        assert(entries[n] == entries.last());
        if entries.last().0 == k {
            assert(entries[n] == (k, put_all(m, entries)[k]));
        } else {
            assert forall|j: int| 0 <= j < d.len() implies d[j] == #[trigger] entries[j] by {}
            if exists|j: int| 0 <= j < d.len() && (#[trigger] d[j]).0 == k {
                let j = choose|j: int|
                    0 <= j < d.len() && #[trigger] d[j] == (k, put_all(m, d)[k]);
                assert(entries[j] == (k, put_all(m, entries)[k]));
            }
            if exists|j: int| 0 <= j < entries.len() && (#[trigger] entries[j]).0 == k {
                let j = choose|j: int| 0 <= j < entries.len() && (#[trigger] entries[j]).0 == k;
                assert(d[j].0 == k);
            }
        }
    }
}

/// An object that was put can be asked for: the answer holds its bytes, where no
/// other object of the batch has the same id.
pub proof fn law_put_objects_can_be_read(
    ep: EndpointModel,
    objects: Seq<ObjectModel>,
    lists: Seq<ListModel>,
    kid: Option<Seq<char>>,
    i: int,
)
    requires
        !ep.auth_required || kid is Some,
        0 <= i < objects.len(),
        forall|j: int|
            0 <= j < objects.len() && (#[trigger] objects[j]).0 == objects[i].0 ==> objects[j].1
                == objects[i].1,
    ensures
        ({
            let (after, out) = served(ep, RequestModel::PutBatch(objects, lists), kid);
            &&& out is Ok
            &&& served(after, RequestModel::GetBatch(seq![objects[i].0]), kid) == (
                after,
                Ok::<ResponseModel, Fault>(ResponseModel::Objects(seq![objects[i]])),
            )
        }),
{
    let k = objects[i].0;
    lemma_put_all(ep.objects, objects, k);
    let m = put_all(ep.objects, objects);
    let j = choose|j: int| 0 <= j < objects.len() && #[trigger] objects[j] == (k, m[k]);
    assert(m[k] == objects[i].1);
    let ids = seq![k];
    reveal_with_fuel(found_from, 2);
    assert(seq![].push((ids[0], m[ids[0]])) =~= seq![objects[i]]);
}

/// Where the objects that a tip needs can be told, every commit of its history can
/// be read and is among them.
pub proof fn law_closure_is_the_history(
    objects: ObjectsModel,
    lists: Map<Seq<u8>, Seq<Seq<u8>>>,
    tip: Seq<u8>,
    c: Seq<u8>,
)
    requires
        objects.dom().finite(),
        crate::reach::reaches(object_links(objects), set![tip], c),
    ensures
        closure_ids(objects, lists, tip) is Ok ==> crate::walk::readable(readings(objects), c),
        closure_ids(objects, lists, tip) is Ok ==> exists|all: Seq<Seq<u8>>|
            {
                &&& crate::walk::history(readings(objects), lost_commit(), tip) == Ok::<
                    Seq<Seq<u8>>,
                    Fault,
                >(all)
                &&& #[trigger] all.contains(c)
                &&& ids_of(all, lists).contains(SourceId::Commit(c))
            },
{
    lemma_readings_finite(objects);
    crate::walk::law_walk_sees_the_history(readings(objects), lost_commit(), tip);
    if let Ok(all) = crate::walk::history(readings(objects), lost_commit(), tip) {
        assert(all.contains(c));
    }
}

proof fn lemma_find_behind(s: Seq<char>, pat: Seq<char>, n: int, i: int)
    requires
        0 <= i <= n,
        n + pat.len() <= s.len(),
        pat.len() > 0,
        s.subrange(n, n + pat.len()) == pat,
        forall|k: int| 0 <= k < n ==> s[k] != pat[0],
    ensures
        crate::text::find_from(s, pat, i) == Some(n),
    decreases n - i,
{
    if i < n {
        if crate::text::stands_at(s, pat, i) {
            assert(s.subrange(i, i + pat.len())[0] == s[i]);
        }
        lemma_find_behind(s, pat, n, i + 1);
    }
}

/// A URL of any scheme but `file` and `mem` leads nowhere: no network is asked.
pub proof fn law_other_schemes_lead_nowhere(scheme: Seq<char>, rest: Seq<char>)
    requires
        !scheme.contains(':'),
        scheme != "file"@,
        scheme != "mem"@,
    ensures
        url_target(scheme + seq![':', '/', '/'] + rest) is None,
{
    let mark = seq![':', '/', '/'];
    let url = scheme + mark + rest;
    let n = scheme.len() as int;
    assert(url.subrange(n, n + mark.len()) =~= mark);
    assert forall|k: int| 0 <= k < n implies url[k] != mark[0] by {
        assert(url[k] == scheme[k]);
        assert(scheme.contains(scheme[k]));
    }
    lemma_find_behind(url, mark, n, 0);
    assert(url.take(n) =~= scheme);
}

} // verus!
