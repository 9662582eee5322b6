//! What a push to a remote in memory and a fetch from it do together.

use vstd::prelude::*;

use crate::refs::RefNs;
use crate::remote::{cloned_from, fetched, history_of, holds, objects_of, pushed};
use crate::remote_transport::{
    EndpointModel, ListModel, MemModel, MemTransport, ObjectModel, ObjectsModel, RemoteTransport,
};
use crate::remote_wire::{read_record, tables_at, SourceId, SourceModel};
use crate::source::{ChunkSource, OriginSource};
use crate::staging::{SnapModel, StoreModel};
use crate::table_merge::Fault;

verus! {

/// Do all entries of a key hold one value?
pub open spec fn agree<A, B>(entries: Seq<(A, B)>, k: A, v: B) -> bool {
    forall|j: int| 0 <= j < entries.len() && (#[trigger] entries[j]).0 == k ==> entries[j].1 == v
}

/// Is there an entry of a key?
pub open spec fn has_entry<A, B>(entries: Seq<(A, B)>, k: A) -> bool {
    exists|j: int| 0 <= j < entries.len() && (#[trigger] entries[j]).0 == k
}

proof fn lemma_put_agreed<A, B>(m: Map<A, B>, entries: Seq<(A, B)>, k: A, v: B)
    requires
        agree(entries, k, v),
    ensures
        has_entry(entries, k) || (m.dom().contains(k) && m[k] == v) ==> {
            let n = crate::remote_transport::put_all(m, entries);
            n.dom().contains(k) && n[k] == v
        },
{
    crate::remote_transport::lemma_put_all(m, entries, k);
    let n = crate::remote_transport::put_all(m, entries);
    if has_entry(entries, k) {
        let j = choose|j: int| 0 <= j < entries.len() && #[trigger] entries[j] == (k, n[k]);
        assert(entries[j].0 == k);
    }
}

/// The remote after one batch.
proof fn lemma_put_batch(t: MemModel, part: Seq<ObjectModel>, lists: Seq<ListModel>)
    ensures
        ({
            let (u, out) = MemTransport::put_said(t, part, lists);
            &&& u.endpoint.refs == t.endpoint.refs && u.kid == t.kid
            &&& u.endpoint.auth_required == t.endpoint.auth_required
            &&& out is Ok ==> {
                &&& u.endpoint.objects == crate::remote_transport::put_all(
                    t.endpoint.objects,
                    part,
                )
                &&& u.endpoint.snap_lists == crate::remote_transport::put_all(
                    t.endpoint.snap_lists,
                    lists,
                )
                &&& !t.endpoint.auth_required || t.kid is Some
            }
        }),
{
}

/// Is an object one of the first `n` that are not said to be there?
spec fn left_out(part: Seq<ObjectModel>, present: Seq<bool>, n: int, o: ObjectModel) -> bool {
    exists|k: int| 0 <= k < n && !present[k] && #[trigger] part[k] == o
}

/// What is not said to be there is among what is absent, and nothing else is.
proof fn lemma_absent(part: Seq<ObjectModel>, present: Seq<bool>, n: int)
    requires
        0 <= n <= part.len() == present.len(),
    ensures
        forall|k: int| 0 <= k < n && !present[k] ==> crate::remote::absent(part, present, n).contains(
            #[trigger] part[k],
        ),
        forall|j: int|
            0 <= j < crate::remote::absent(part, present, n).len() ==> left_out(
                part,
                present,
                n,
                #[trigger] crate::remote::absent(part, present, n)[j],
            ),
    decreases n,
{
    if n > 0 {
        lemma_absent(part, present, n - 1);
        let before = crate::remote::absent(part, present, n - 1);
        let all = crate::remote::absent(part, present, n);
        assert forall|k: int| 0 <= k < n && !present[k] implies all.contains(#[trigger] part[k]) by {
            if k < n - 1 {
                assert(before.contains(part[k]));
                let j = choose|j: int| 0 <= j < before.len() && before[j] == part[k];
                assert(all[j] == part[k]);
            } else {
                assert(all[before.len() as int] == part[k]);
            }
        }
        assert forall|j: int| 0 <= j < all.len() implies left_out(
            part,
            present,
            n,
            #[trigger] all[j],
        ) by {
            if j < before.len() {
                assert(all[j] == before[j]);
                assert(left_out(part, present, n - 1, before[j]));
                let k = choose|k: int|
                    0 <= k < n - 1 && !present[k] && #[trigger] part[k] == before[j];
                assert(part[k] == all[j]);
            } else {
                assert(all[j] == part[n - 1]);
            }
        }
    }
}

/// What a remote in memory says of which objects are there.
proof fn lemma_presence(t: MemModel, part: Seq<ObjectModel>)
    ensures
        ({
            let (u, said) = MemTransport::presence_said(t, crate::remote::object_ids(part));
            &&& u == t
            &&& said matches Ok(present) ==> {
                &&& present.len() == part.len()
                &&& forall|k: int|
                    0 <= k < part.len() ==> #[trigger] present[k]
                        == t.endpoint.objects.dom().contains(part[k].0)
            }
        }),
{
}

/// One batch of a push to a remote in memory: an object of it is there afterwards,
/// with the right bytes where it did not have others before.
proof fn lemma_batch_put(
    t: MemModel,
    part: Seq<ObjectModel>,
    present: Seq<bool>,
    lists: Seq<ListModel>,
    id: SourceModel,
    bytes: Seq<u8>,
)
    requires
        MemTransport::presence_said(t, crate::remote::object_ids(part)).1 == Ok::<
            Seq<bool>,
            Fault,
        >(present),
        agree(part, id, bytes),
        MemTransport::put_said(
            t,
            crate::remote::absent(part, present, part.len() as int),
            lists,
        ).1 is Ok,
    ensures
        ({
            let before = t.endpoint.objects;
            let after = MemTransport::put_said(
                t,
                crate::remote::absent(part, present, part.len() as int),
                lists,
            ).0.endpoint.objects;
            &&& before.dom().contains(id) || has_entry(part, id) ==> after.dom().contains(id)
            &&& after.dom().contains(id) && (before.dom().contains(id) ==> before[id] == bytes)
                ==> after[id] == bytes
        }),
{
    let sent = crate::remote::absent(part, present, part.len() as int);
    lemma_presence(t, part);
    lemma_absent(part, present, part.len() as int);
    lemma_put_batch(t, sent, lists);
    assert forall|j: int| 0 <= j < sent.len() && (#[trigger] sent[j]).0 == id implies sent[j].1
        == bytes by {
        assert(left_out(part, present, part.len() as int, sent[j]));
        let k = choose|k: int| 0 <= k < part.len() && !present[k] && #[trigger] part[k] == sent[j];
        assert(part[k].0 == id);
    }
    crate::remote_transport::lemma_put_all(t.endpoint.objects, sent, id);
    lemma_put_agreed(t.endpoint.objects, sent, id, bytes);
    if has_entry(part, id) && !t.endpoint.objects.dom().contains(id) {
        let k = choose|k: int| 0 <= k < part.len() && (#[trigger] part[k]).0 == id;
        assert(!present[k]);
        assert(sent.contains(part[k]));
        let j = choose|j: int| 0 <= j < sent.len() && sent[j] == part[k];
        assert(sent[j].0 == id);
    }
}

/// Objects that are pushed to a remote in memory are there.
proof fn lemma_put_objects(
    t: MemModel,
    objects: Seq<ObjectModel>,
    lists: Seq<ListModel>,
    i: int,
    id: SourceModel,
    bytes: Seq<u8>,
)
    requires
        0 <= i <= objects.len(),
        agree(objects, id, bytes),
    ensures
        ({
            let (u, out) = crate::remote::put_from::<MemTransport>(t, objects, lists, i);
            let before = t.endpoint.objects;
            let after = u.endpoint.objects;
            &&& u.endpoint.refs == t.endpoint.refs && u.kid == t.kid
            &&& u.endpoint.auth_required == t.endpoint.auth_required
            &&& out is Ok && (has_entry(objects.skip(i), id) || before.dom().contains(id))
                ==> after.dom().contains(id)
            &&& out is Ok && after.dom().contains(id) && (before.dom().contains(id) ==> before[id]
                == bytes) ==> after[id] == bytes
            &&& i < objects.len() && out is Ok ==> !t.endpoint.auth_required || t.kid is Some
        }),
    decreases objects.len() - i,
{
    if i < objects.len() {
        let j = crate::remote::batch_end(i, objects.len());
        let part = objects.subrange(i, j);
        lemma_presence(t, part);
        if let Ok(present) = MemTransport::presence_said(t, crate::remote::object_ids(part)).1 {
            let sent = crate::remote::absent(part, present, part.len() as int);
            let (next, out) = MemTransport::put_said(t, sent, lists);
            lemma_put_batch(t, sent, lists);
            assert forall|k: int|
                0 <= k < part.len() && (#[trigger] part[k]).0 == id implies part[k].1 == bytes by {
                assert(objects[i + k] == part[k]);
            }
            if out is Ok {
                lemma_batch_put(t, part, present, lists, id, bytes);
                lemma_put_objects(next, objects, lists, j, id, bytes);
                let left = objects.skip(i);
                if has_entry(left, id) {
                    let k = choose|k: int| 0 <= k < left.len() && (#[trigger] left[k]).0 == id;
                    if i + k < j {
                        assert(part[k] == left[k]);
                        assert(has_entry(part, id));
                    } else {
                        let rest = objects.skip(j);
                        assert(rest[i + k - j] == left[k]);
                        assert(has_entry(rest, id));
                    }
                }
            }
        }
    } else {
        assert(objects.skip(i) =~= seq![]);
    }
}

/// Snapshot lists that are put on a remote in memory with objects are there.
proof fn lemma_put_lists(
    t: MemModel,
    objects: Seq<ObjectModel>,
    lists: Seq<ListModel>,
    i: int,
    c: Seq<u8>,
    snaps: Seq<Seq<u8>>,
)
    requires
        0 <= i <= objects.len(),
        agree(lists, c, snaps),
    ensures
        ({
            let (u, out) = crate::remote::put_from::<MemTransport>(t, objects, lists, i);
            out is Ok && ((i < objects.len() && has_entry(lists, c)) || (
            t.endpoint.snap_lists.dom().contains(c) && t.endpoint.snap_lists[c] == snaps))
                ==> u.endpoint.snap_lists.dom().contains(c) && u.endpoint.snap_lists[c] == snaps
        }),
    decreases objects.len() - i,
{
    if i < objects.len() {
        let j = crate::remote::batch_end(i, objects.len());
        let part = objects.subrange(i, j);
        lemma_presence(t, part);
        if let Ok(present) = MemTransport::presence_said(t, crate::remote::object_ids(part)).1 {
            let sent = crate::remote::absent(part, present, part.len() as int);
            let (next, out) = MemTransport::put_said(t, sent, lists);
            lemma_put_batch(t, sent, lists);
            lemma_put_agreed(t.endpoint.snap_lists, lists, c, snaps);
            if out is Ok {
                lemma_put_lists(next, objects, lists, j, c, snaps);
            }
        }
    }
}

/// The objects of commits: which ids they have, and which bytes a commit has.
proof fn lemma_objects_of(s: StoreModel, all: Seq<Seq<u8>>, c: Seq<u8>)
    ensures
        all.contains(c) ==> has_entry(objects_of(s, all), SourceModel::Commit(c)),
        agree(
            objects_of(s, all),
            SourceModel::Commit(c),
            crate::commit::commit_bytes(s.commits[c]),
        ),
    decreases all.len(),
{
    if all.len() > 0 {
        let d = all.drop_last();
        let x = all.last();
        lemma_objects_of(s, d, c);
        let o = objects_of(s, d);
        let own: ObjectModel = (
            SourceModel::Commit(x),
            crate::commit::commit_bytes(s.commits[x]),
        );
        let snaps = crate::remote::snap_objects(s, x);
        let whole = objects_of(s, all);
        assert(whole == o.push(own) + snaps);
        assert(whole[o.len() as int] == own);
        if all.contains(c) && c != x {
            let k = choose|k: int| 0 <= k < all.len() && all[k] == c;
            assert(d[k] == c);
            let j = choose|j: int|
                0 <= j < o.len() && (#[trigger] o[j]).0 == SourceModel::Commit(c);
            assert(whole[j] == o[j]);
        }
        assert forall|j: int|
            0 <= j < whole.len() && (#[trigger] whole[j]).0 == SourceModel::Commit(
                c,
            ) implies whole[j].1 == crate::commit::commit_bytes(s.commits[c]) by {
            if j < o.len() {
                assert(o[j] == whole[j]);
            } else if j > o.len() {
                assert(whole[j] == snaps[j - o.len() - 1]);
                assert(whole[j].0 is Snapshot);
            }
        }
    } else {
        assert(objects_of(s, all) =~= seq![]);
    }
}

/// The commits of a history, read from a repository that holds them.
proof fn lemma_history(s: StoreModel, tip: Seq<u8>, all: Seq<Seq<u8>>)
    requires
        s.commits.dom().finite(),
        history_of(s, tip) == Ok::<Seq<Seq<u8>>, Fault>(all),
    ensures
        forall|c: Seq<u8>| #[trigger]
            all.contains(c) <==> crate::reach::reaches(
                crate::commit::parent_links(s.commits),
                set![tip],
                c,
            ),
        forall|c: Seq<u8>| #[trigger] all.contains(c) ==> s.commits.dom().contains(c),
        all.contains(tip),
{
    let read = crate::remote::commit_readings(s.commits);
    assert(read.dom() =~= s.commits.dom());
    crate::walk::law_walk_sees_the_history(read, crate::remote::lacked(), tip);
    let links = crate::walk::read_links(read);
    assert(links =~= crate::commit::parent_links(s.commits));
    crate::reach::lemma_root_reached(links, set![tip], tip);
}

/// Does a remote hold a commit as it is here, where it holds one under its id?
pub open spec fn alike(s: StoreModel, t: MemModel, c: Seq<u8>) -> bool {
    t.endpoint.objects.dom().contains(SourceModel::Commit(c)) ==> t.endpoint.objects[SourceModel::Commit(
        c,
    )] == crate::commit::commit_bytes(s.commits[c])
}

/// A push that goes well delivers: the remote's branch is at the tip, and the
/// remote holds every commit of the tip's history as it is here, unless it held
/// something else under its id before.
pub proof fn law_push_delivers(
    s: StoreModel,
    t: MemModel,
    remote: Seq<char>,
    branch: Seq<char>,
    force: bool,
    all: Seq<Seq<u8>>,
    c: Seq<u8>,
)
    requires
        s.commits.dom().finite(),
        pushed::<MemTransport>(s, t, remote, branch, force).1 is Ok,
        history_of(s, s.refs[(RefNs::Heads, branch)]) == Ok::<Seq<Seq<u8>>, Fault>(all),
        all.contains(c),
        alike(s, t, c),
    ensures
        ({
            let u = pushed::<MemTransport>(s, t, remote, branch, force).0;
            &&& crate::remote_transport::tip_of(u.endpoint.refs.branches, branch) == Some(
                s.refs[(RefNs::Heads, branch)],
            )
            &&& u.endpoint.objects.dom().contains(SourceModel::Commit(c))
            &&& u.endpoint.objects[SourceModel::Commit(c)] == crate::commit::commit_bytes(
                s.commits[c],
            )
        }),
{
    let tip = s.refs[(RefNs::Heads, branch)];
    let objects = objects_of(s, all);
    let lists = crate::remote::lists_of(s, all);
    lemma_objects_of(s, all, c);
    let bytes = crate::commit::commit_bytes(s.commits[c]);
    assert(objects.skip(0) =~= objects);
    lemma_put_objects(t, objects, lists, 0, SourceModel::Commit(c), bytes);
    let (u, out) = crate::remote::put_from::<MemTransport>(t, objects, lists, 0);
    crate::remote_transport::law_branch_moves_alone(u.endpoint.refs, branch, tip, branch);
}

/// All that a push sends of the objects from place `i` on.
pub open spec fn sends<T: RemoteTransport>(
    t: T::State,
    objects: Seq<ObjectModel>,
    lists: Seq<ListModel>,
    i: int,
) -> Seq<ObjectModel>
    decreases objects.len() - i,
{
    if i >= objects.len() {
        seq![]
    } else {
        let j = crate::remote::batch_end(i, objects.len());
        let part = objects.subrange(i, j);
        let (asked, said) = T::presence_said(t, crate::remote::object_ids(part));
        match said {
            Err(_) => seq![],
            Ok(present) => {
                let sent = crate::remote::absent(part, present, part.len() as int);
                let (next, out) = T::put_said(asked, sent, lists);
                match out {
                    Err(_) => sent,
                    Ok(_) => sent + sends::<T>(next, objects, lists, j),
                }
            },
        }
    }
}

/// Has a remote in this state an object, as it reports?
pub open spec fn is_there<S>(has: spec_fn(S, SourceModel) -> bool, u: S, x: SourceModel) -> bool {
    has(u, x)
}

/// Does a remote have in one state all that it had in another?
pub open spec fn still_there<S>(has: spec_fn(S, SourceModel) -> bool, u: S, v: S) -> bool {
    forall|x: SourceModel| is_there(has, u, x) ==> #[trigger] is_there(has, v, x)
}

/// Does a transport report presence? It says of each object whether the remote has
/// it, what is put is there from then on, and nothing that a push asks of the remote
/// takes an object away.
pub open spec fn reports_presence<T: RemoteTransport>(
    has: spec_fn(T::State, SourceModel) -> bool,
) -> bool {
    &&& forall|u: T::State, ids: Seq<SourceModel>|
        {
            let (v, said) = #[trigger] T::presence_said(u, ids);
            &&& still_there(has, u, v)
            &&& said matches Ok(p) ==> p.len() == ids.len() && forall|k: int|
                0 <= k < p.len() ==> #[trigger] p[k] == is_there(has, u, ids[k])
        }
    &&& forall|u: T::State, objects: Seq<ObjectModel>, lists: Seq<ListModel>|
        {
            let (v, out) = #[trigger] T::put_said(u, objects, lists);
            &&& still_there(has, u, v)
            &&& out is Ok ==> forall|k: int|
                0 <= k < objects.len() ==> is_there(has, v, (#[trigger] objects[k]).0)
        }
    &&& forall|u: T::State, branch: Seq<char>|
        still_there(has, u, (#[trigger] T::branch_said(u, branch)).0)
    &&& forall|u: T::State, branch: Seq<char>, tip: Seq<u8>, force: bool|
        still_there(has, u, (#[trigger] T::update_said(u, branch, tip, force)).0)
}

#[verifier::spinoff_prover]
#[verifier::rlimit(60)]
proof fn lemma_sent_is_there<T: RemoteTransport>(
    has: spec_fn(T::State, SourceModel) -> bool,
    t: T::State,
    objects: Seq<ObjectModel>,
    lists: Seq<ListModel>,
    i: int,
    x: SourceModel,
)
    requires
        0 <= i <= objects.len(),
        reports_presence::<T>(has),
    ensures
        ({
            let (u, out) = crate::remote::put_from::<T>(t, objects, lists, i);
            &&& is_there(has, t, x) ==> is_there(has, u, x)
            &&& out is Ok && (exists|k: int|
                i <= k < objects.len() && (#[trigger] objects[k]).0 == x) ==> is_there(has, u, x)
        }),
    decreases objects.len() - i,
{
    if i < objects.len() {
        let j = crate::remote::batch_end(i, objects.len());
        let part = objects.subrange(i, j);
        let (asked, said) = T::presence_said(t, crate::remote::object_ids(part));
        if let Ok(present) = said {
            let sent = crate::remote::absent(part, present, part.len() as int);
            let (next, out) = T::put_said(asked, sent, lists);
            assert(still_there(has, t, asked));
            assert(still_there(has, asked, next));
            assert(is_there(has, t, x) ==> is_there(has, asked, x));
            assert(is_there(has, asked, x) ==> is_there(has, next, x));
            lemma_absent(part, present, part.len() as int);
            lemma_sent_is_there::<T>(has, next, objects, lists, j, x);
            if out is Ok && exists|k: int| i <= k < objects.len() && (#[trigger] objects[k]).0 == x {
                let k = choose|k: int| i <= k < objects.len() && (#[trigger] objects[k]).0 == x;
                if k < j {
                    let m = k - i;
                    assert(part[m] == objects[k]);
                    assert(crate::remote::object_ids(part)[m] == x);
                    if !present[m] {
                        assert(sent.contains(part[m]));
                        let n = choose|n: int| 0 <= n < sent.len() && sent[n] == part[m];
                        assert(is_there(has, next, sent[n].0));
                    } else {
                        assert(present[m] == is_there(has, t, x));
                    }
                } else {
                    assert(j <= k < objects.len() && objects[k].0 == x);
                }
            }
        }
    }
}

#[verifier::spinoff_prover]
#[verifier::rlimit(60)]
proof fn lemma_sends_nothing<T: RemoteTransport>(
    has: spec_fn(T::State, SourceModel) -> bool,
    t: T::State,
    objects: Seq<ObjectModel>,
    lists: Seq<ListModel>,
    i: int,
)
    requires
        0 <= i <= objects.len(),
        reports_presence::<T>(has),
        forall|k: int| 0 <= k < objects.len() ==> is_there(has, t, (#[trigger] objects[k]).0),
    ensures
        sends::<T>(t, objects, lists, i) == Seq::<ObjectModel>::empty(),
    decreases objects.len() - i,
{
    if i < objects.len() {
        let j = crate::remote::batch_end(i, objects.len());
        let part = objects.subrange(i, j);
        let (asked, said) = T::presence_said(t, crate::remote::object_ids(part));
        if let Ok(present) = said {
            let sent = crate::remote::absent(part, present, part.len() as int);
            lemma_absent(part, present, part.len() as int);
            if sent.len() > 0 {
                assert(left_out(part, present, part.len() as int, sent[0]));
                let k = choose|k: int|
                    0 <= k < part.len() && !present[k] && #[trigger] part[k] == sent[0];
                assert(part[k] == objects[i + k]);
                assert(crate::remote::object_ids(part)[k] == objects[i + k].0);
                assert(present[k]);
            }
            assert(sent =~= seq![]);
            let (next, out) = T::put_said(asked, sent, lists);
            assert(still_there(has, t, asked));
            assert(still_there(has, asked, next));
            assert forall|k: int| 0 <= k < objects.len() implies is_there(
                has,
                next,
                (#[trigger] objects[k]).0,
            ) by {
                assert(is_there(has, asked, objects[k].0));
            }
            lemma_sends_nothing::<T>(has, next, objects, lists, j);
        }
    }
}

/// After a push that went well, pushing the same again sends no object, over any
/// transport that reports presence.
pub proof fn law_second_push_sends_nothing<T: RemoteTransport>(
    has: spec_fn(T::State, SourceModel) -> bool,
    s: StoreModel,
    t: T::State,
    remote: Seq<char>,
    branch: Seq<char>,
    force: bool,
    all: Seq<Seq<u8>>,
)
    requires
        reports_presence::<T>(has),
        pushed::<T>(s, t, remote, branch, force).1 is Ok,
        history_of(s, s.refs[(RefNs::Heads, branch)]) == Ok::<Seq<Seq<u8>>, Fault>(all),
    ensures
        ({
            let u = pushed::<T>(s, t, remote, branch, force).0;
            let asked = T::branch_said(u, branch).0;
            sends::<T>(asked, objects_of(s, all), crate::remote::lists_of(s, all), 0) == Seq::<
                ObjectModel,
            >::empty()
        }),
{
    let tip = s.refs[(RefNs::Heads, branch)];
    let objects = objects_of(s, all);
    let lists = crate::remote::lists_of(s, all);
    let first = T::branch_said(t, branch).0;
    let put = crate::remote::put_from::<T>(first, objects, lists, 0).0;
    let u = pushed::<T>(s, t, remote, branch, force).0;
    let asked = T::branch_said(u, branch).0;
    assert(u == T::update_said(put, branch, tip, force).0);
    assert(still_there(has, put, u));
    assert(still_there(has, u, asked));
    assert forall|k: int| 0 <= k < objects.len() implies is_there(
        has,
        asked,
        (#[trigger] objects[k]).0,
    ) by {
        lemma_sent_is_there::<T>(has, first, objects, lists, 0, objects[k].0);
        assert(is_there(has, put, objects[k].0));
        assert(is_there(has, u, objects[k].0));
    }
    lemma_sends_nothing::<T>(has, asked, objects, lists, 0);
}

/// A remote in memory reports presence.
pub proof fn law_memory_reports_presence()
    ensures
        reports_presence::<MemTransport>(
            |u: MemModel, x: SourceModel| u.endpoint.objects.dom().contains(x),
        ),
{
    let has = |u: MemModel, x: SourceModel| u.endpoint.objects.dom().contains(x);
    assert forall|u: MemModel, objects: Seq<ObjectModel>, lists: Seq<ListModel>|
        {
            let (v, out) = #[trigger] MemTransport::put_said(u, objects, lists);
            &&& still_there(has, u, v)
            &&& out is Ok ==> forall|k: int|
                0 <= k < objects.len() ==> is_there(has, v, (#[trigger] objects[k]).0)
        } by {
        lemma_put_batch(u, objects, lists);
        let (v, out) = MemTransport::put_said(u, objects, lists);
        assert forall|x: SourceModel| is_there(has, u, x) implies #[trigger] is_there(
            has,
            v,
            x,
        ) by {
            crate::remote_transport::lemma_put_all(u.endpoint.objects, objects, x);
        }
        if out is Ok {
            assert forall|k: int| 0 <= k < objects.len() implies is_there(
                has,
                v,
                (#[trigger] objects[k]).0,
            ) by {
                crate::remote_transport::lemma_put_all(u.endpoint.objects, objects, objects[k].0);
            }
        }
    }
}

/// Pushing objects that a remote in memory has goes well and leaves its objects and
/// branches alone.
proof fn lemma_put_known(t: MemModel, objects: Seq<ObjectModel>, lists: Seq<ListModel>, i: int)
    requires
        0 <= i <= objects.len(),
        !t.endpoint.auth_required || t.kid is Some,
        forall|k: int|
            0 <= k < objects.len() ==> t.endpoint.objects.dom().contains((#[trigger] objects[k]).0),
    ensures
        ({
            let (u, out) = crate::remote::put_from::<MemTransport>(t, objects, lists, i);
            &&& out is Ok
            &&& u.endpoint.objects == t.endpoint.objects && u.endpoint.refs == t.endpoint.refs
            &&& u.kid == t.kid && u.endpoint.auth_required == t.endpoint.auth_required
        }),
    decreases objects.len() - i,
{
    if i < objects.len() {
        let j = crate::remote::batch_end(i, objects.len());
        let part = objects.subrange(i, j);
        lemma_presence(t, part);
        let present = MemTransport::presence_said(t, crate::remote::object_ids(part)).1->Ok_0;
        let sent = crate::remote::absent(part, present, part.len() as int);
        lemma_absent(part, present, part.len() as int);
        if sent.len() > 0 {
            assert(left_out(part, present, part.len() as int, sent[0]));
            let k = choose|k: int|
                0 <= k < part.len() && !present[k] && #[trigger] part[k] == sent[0];
            assert(part[k] == objects[i + k]);
        }
        assert(sent =~= seq![]);
        lemma_put_batch(t, sent, lists);
        lemma_put_known(MemTransport::put_said(t, sent, lists).0, objects, lists, j);
    }
}

/// After a push to a remote in memory that went well, pushing the branch again goes well
/// too, forced or not: it sends no object, and the remote keeps its objects and its
/// branches, with this one at the tip that was pushed.
pub proof fn law_second_push_goes_well(
    s: StoreModel,
    t: MemModel,
    remote: Seq<char>,
    branch: Seq<char>,
    force: bool,
    again: bool,
    all: Seq<Seq<u8>>,
)
    requires
        pushed::<MemTransport>(s, t, remote, branch, force).1 is Ok,
        history_of(s, s.refs[(RefNs::Heads, branch)]) == Ok::<Seq<Seq<u8>>, Fault>(all),
        crate::remote_wire::refs_fit(
            pushed::<MemTransport>(s, t, remote, branch, force).0.endpoint.refs,
        ),
    ensures
        ({
            let u = pushed::<MemTransport>(s, t, remote, branch, force).0;
            let (v, out) = pushed::<MemTransport>(s, u, remote, branch, again);
            &&& out is Ok
            &&& sends::<MemTransport>(u, objects_of(s, all), crate::remote::lists_of(s, all), 0)
                == Seq::<ObjectModel>::empty()
            &&& v.endpoint.objects == u.endpoint.objects
            &&& v.endpoint.refs == u.endpoint.refs
            &&& crate::remote_transport::tip_of(v.endpoint.refs.branches, branch) == Some(
                s.refs[(RefNs::Heads, branch)],
            )
        }),
{
    let tip = s.refs[(RefNs::Heads, branch)];
    let objects = objects_of(s, all);
    let lists = crate::remote::lists_of(s, all);
    let has = |u: MemModel, x: SourceModel| u.endpoint.objects.dom().contains(x);
    let u = pushed::<MemTransport>(s, t, remote, branch, force).0;
    let put = crate::remote::put_from::<MemTransport>(t, objects, lists, 0).0;
    assert(u == MemTransport::update_said(put, branch, tip, force).0);
    crate::remote_transport::law_branch_moves_alone(put.endpoint.refs, branch, tip, branch);
    lemma_branch_said(u, branch);
    law_memory_reports_presence();
    law_second_push_sends_nothing::<MemTransport>(has, s, t, remote, branch, force, all);
    assert(objects.skip(0) =~= objects);
    assert forall|k: int| 0 <= k < objects.len() implies u.endpoint.objects.dom().contains(
        (#[trigger] objects[k]).0,
    ) by {
        lemma_put_present(t, objects, lists, 0, objects[k].0);
    }
    lemma_put_known(u, objects, lists, 0);
    let b = u.endpoint.refs.branches;
    crate::remote_transport::lemma_branch_at(b, branch);
    let i = crate::remote_transport::branch_at(b, branch)->0;
    assert(b.update(i, (branch, tip)) =~= b);
}

/// Objects that are pushed to a remote in memory are there, whatever their bytes.
proof fn lemma_put_present(
    t: MemModel,
    objects: Seq<ObjectModel>,
    lists: Seq<ListModel>,
    i: int,
    id: SourceModel,
)
    requires
        0 <= i <= objects.len(),
    ensures
        ({
            let (u, out) = crate::remote::put_from::<MemTransport>(t, objects, lists, i);
            out is Ok && (has_entry(objects.skip(i), id) || t.endpoint.objects.dom().contains(id))
                ==> u.endpoint.objects.dom().contains(id)
        }),
    decreases objects.len() - i,
{
    if i < objects.len() {
        let j = crate::remote::batch_end(i, objects.len());
        let part = objects.subrange(i, j);
        lemma_presence(t, part);
        if let Ok(present) = MemTransport::presence_said(t, crate::remote::object_ids(part)).1 {
            let sent = crate::remote::absent(part, present, part.len() as int);
            let (next, out) = MemTransport::put_said(t, sent, lists);
            lemma_put_batch(t, sent, lists);
            lemma_absent(part, present, part.len() as int);
            crate::remote_transport::lemma_put_all(t.endpoint.objects, sent, id);
            if out is Ok {
                let left = objects.skip(i);
                if has_entry(left, id) {
                    let k = choose|k: int| 0 <= k < left.len() && (#[trigger] left[k]).0 == id;
                    if i + k < j {
                        assert(part[k] == left[k]);
                        if !t.endpoint.objects.dom().contains(id) {
                            assert(!present[k]);
                            assert(sent.contains(part[k]));
                            let m = choose|m: int| 0 <= m < sent.len() && sent[m] == part[k];
                            assert(sent[m].0 == id);
                        }
                        assert(next.endpoint.objects.dom().contains(id));
                    } else {
                        let rest = objects.skip(j);
                        assert(rest[i + k - j] == left[k]);
                        assert(has_entry(rest, id));
                    }
                }
                lemma_put_present(next, objects, lists, j, id);
            }
        }
    } else {
        assert(objects.skip(i) =~= seq![]);
    }
}

// ---------------------------------------------------------------------------
// Fetching what was pushed
// ---------------------------------------------------------------------------

proof fn lemma_tip_of_push(b: Seq<(Seq<char>, Seq<u8>)>, e: (Seq<char>, Seq<u8>), name: Seq<char>)
    ensures
        crate::remote_transport::tip_of(b.push(e), name) == (match crate::remote_transport::tip_of(
            b,
            name,
        ) {
            Some(t) => Some(t),
            None => if e.0 == name {
                Some(e.1)
            } else {
                None
            },
        }),
{
    assert(b.push(e).drop_last() =~= b);
    crate::remote_transport::lemma_branch_at(b, name);
}

proof fn lemma_tip_of_insert(b: Seq<(Seq<char>, Seq<u8>)>, e: (Seq<char>, Seq<u8>), name: Seq<char>)
    requires
        !crate::remote_wire::has_branch(b, e.0),
    ensures
        crate::remote_transport::tip_of(crate::remote_wire::insert_branch(b, e), name) == (if name
            == e.0 {
            Some(e.1)
        } else {
            crate::remote_transport::tip_of(b, name)
        }),
    decreases b.len(),
{
    crate::remote_transport::lemma_branch_at(b, e.0);
    if let Some(i) = crate::remote_transport::branch_at(b, e.0) {
        assert(b[i].0 == e.0);
    }
    if b.len() == 0 || crate::text::text_lt(b.last().0, e.0) {
        lemma_tip_of_push(b, e, name);
    } else {
        let d = b.drop_last();
        if crate::remote_wire::has_branch(d, e.0) {
            let i = choose|i: int| 0 <= i < d.len() && (#[trigger] d[i]).0 == e.0;
            assert(b[i].0 == e.0);
        }
        lemma_tip_of_insert(d, e, name);
        lemma_tip_of_push(crate::remote_wire::insert_branch(d, e), b.last(), name);
        lemma_tip_of_push(d, b.last(), name);
        assert(b =~= d.push(b.last()));
        assert(b[b.len() - 1].0 != e.0);
    }
}

/// Sorting a branch table keeps the tip of every branch.
proof fn lemma_tip_of_sorted(b: Seq<(Seq<char>, Seq<u8>)>, name: Seq<char>)
    ensures
        crate::remote_transport::tip_of(crate::remote_wire::sorted_branches(b), name)
            == crate::remote_transport::tip_of(b, name),
    decreases b.len(),
{
    if b.len() > 0 {
        let d = b.drop_last();
        let e = b.last();
        let before = crate::remote_wire::sorted_branches(d);
        lemma_tip_of_sorted(d, name);
        lemma_tip_of_push(d, e, name);
        assert(b =~= d.push(e));
        if crate::remote_wire::has_branch(before, e.0) {
            crate::remote_transport::lemma_branch_at(before, name);
            if name == e.0 {
                let i = choose|i: int| 0 <= i < before.len() && (#[trigger] before[i]).0 == e.0;
                assert(crate::remote_transport::branch_at(before, name) is Some);
            }
        } else {
            lemma_tip_of_insert(before, e, name);
            if name == e.0 {
                crate::remote_transport::lemma_branch_at(before, name);
                if let Some(i) = crate::remote_transport::branch_at(before, name) {
                    assert(before[i].0 == e.0);
                }
            }
        }
    }
}

/// A remote in memory that answers names the tip of a branch.
proof fn lemma_branch_said(u: MemModel, branch: Seq<char>)
    requires
        !u.endpoint.auth_required || u.kid is Some,
        crate::remote_wire::refs_fit(u.endpoint.refs),
    ensures
        MemTransport::branch_said(u, branch) == (
            u,
            Ok::<Option<Seq<u8>>, Fault>(
                crate::remote_transport::tip_of(u.endpoint.refs.branches, branch),
            ),
        ),
{
    crate::remote_wire::law_refs_roundtrip(u.endpoint.refs);
    lemma_tip_of_sorted(u.endpoint.refs.branches, branch);
}

proof fn lemma_ids_finite(all: Seq<Seq<u8>>, lists: Map<Seq<u8>, Seq<Seq<u8>>>)
    ensures
        crate::remote_transport::ids_of(all, lists).finite(),
    decreases all.len(),
{
    broadcast use vstd::seq_lib::seq_to_set_is_finite;

    let ids = crate::remote_transport::ids_of(all, lists);
    if all.len() == 0 {
        assert forall|id: SourceModel| !ids.contains(id) by {
            match id {
                SourceId::Commit(c) => {},
                SourceId::Snapshot(x) => {
                    assert forall|c: Seq<u8>| !#[trigger] all.contains(c) by {}
                },
            }
        }
        assert(ids =~= Set::empty());
    } else {
        let d = all.drop_last();
        let x = all.last();
        lemma_ids_finite(d, lists);
        let f = |y: Seq<u8>| SourceModel::Snapshot(y);
        let own = lists[x].to_set();
        own.lemma_map_finite(f);
        let bound = crate::remote_transport::ids_of(d, lists).union(own.map(f)).insert(
            SourceModel::Commit(x),
        );
        assert forall|id: SourceModel| ids.contains(id) implies bound.contains(id) by {
            match id {
                SourceId::Commit(c) => {
                    if c != x {
                        let k = choose|k: int| 0 <= k < all.len() && all[k] == c;
                        assert(d[k] == c);
                    }
                },
                SourceId::Snapshot(y) => {
                    let c = choose|c: Seq<u8>| #[trigger]
                        all.contains(c) && lists.dom().contains(c) && lists[c].contains(y);
                    if c == x {
                        assert(own.contains(y));
                        assert(own.map(f).contains(f(y)));
                    } else {
                        let k = choose|k: int| 0 <= k < all.len() && all[k] == c;
                        assert(d[k] == c);
                        assert(d.contains(c));
                        assert(crate::remote_transport::listed(d, lists, y));
                    }
                },
            }
        }
        vstd::set_lib::lemma_set_subset_finite(bound, ids);
    }
}

/// What a tip needs holds exactly the ids of its history.
proof fn lemma_closure_ids(
    objects: ObjectsModel,
    lists: Map<Seq<u8>, Seq<Seq<u8>>>,
    tip: Seq<u8>,
    ids: Seq<SourceModel>,
    c: Seq<u8>,
)
    requires
        objects.dom().finite(),
        crate::remote_transport::closure_ids(objects, lists, tip) == Ok::<Seq<SourceModel>, Fault>(
            ids,
        ),
        crate::reach::reaches(crate::remote_transport::object_links(objects), set![tip], c),
    ensures
        ids.contains(SourceModel::Commit(c)),
        forall|x: Seq<u8>|
            lists.dom().contains(c) && #[trigger] lists[c].contains(x) ==> ids.contains(
                SourceModel::Snapshot(x),
            ),
{
    let read = crate::remote_transport::readings(objects);
    crate::remote_transport::lemma_readings_finite(objects);
    crate::walk::law_walk_sees_the_history(read, crate::remote_transport::lost_commit(), tip);
    let all = crate::walk::history(read, crate::remote_transport::lost_commit(), tip)->Ok_0;
    let set = crate::remote_transport::ids_of(all, lists);
    lemma_ids_finite(all, lists);
    crate::remote_transport::lemma_source_order();
    let s = crate::sorting::lemma_increasing_exists(set, crate::remote_transport::source_lt());
    assert(ids.to_set() == set);
    assert(all.contains(c));
    assert(set.contains(SourceModel::Commit(c)));
    assert(ids.to_set().contains(SourceModel::Commit(c)));
    assert forall|x: Seq<u8>|
        lists.dom().contains(c) && #[trigger] lists[c].contains(x) implies ids.contains(
        SourceModel::Snapshot(x),
    ) by {
        assert(crate::remote_transport::listed(all, lists, x));
        assert(set.contains(SourceModel::Snapshot(x)));
        assert(ids.to_set().contains(SourceModel::Snapshot(x)));
    }
}

proof fn lemma_found_from(
    objects: ObjectsModel,
    ids: Seq<SourceModel>,
    i: int,
    found: Seq<ObjectModel>,
)
    requires
        0 <= i <= ids.len(),
        found.len() == i,
        forall|k: int|
            0 <= k < found.len() ==> #[trigger] found[k] == (ids[k], objects[ids[k]])
                && objects.dom().contains(ids[k]),
    ensures
        crate::remote_transport::found_from(objects, ids, i, found) matches Ok(all) ==> {
            &&& all.len() == ids.len()
            &&& forall|k: int|
                0 <= k < all.len() ==> #[trigger] all[k] == (ids[k], objects[ids[k]])
                    && objects.dom().contains(ids[k])
        },
    decreases ids.len() - i,
{
    if i < ids.len() && objects.dom().contains(ids[i]) {
        lemma_found_from(objects, ids, i + 1, found.push((ids[i], objects[ids[i]])));
    }
}

/// The commit that a remote holds under an id.
spec fn commit_there(
    objects: ObjectsModel,
    c: Seq<u8>,
) -> crate::commit::CommitModel {
    crate::commit::read_commit(objects[SourceModel::Commit(c)])->0
}

/// A commit is there as it was, or as the remote holds it.
spec fn taken_over(
    s: StoreModel,
    t: StoreModel,
    objects: ObjectsModel,
    c: Seq<u8>,
) -> bool {
    t.commits.dom().contains(c) ==> t.commits[c] == commit_there(objects, c) || (
    s.commits.dom().contains(c) && t.commits[c] == s.commits[c])
}

proof fn lemma_object_taken(
    s: StoreModel,
    objects: ObjectsModel,
    id: SourceModel,
    c: Seq<u8>,
)
    ensures
        ({
            let (t, out) = crate::remote::object_stored(s, id, objects[id]);
            &&& taken_over(s, t, objects, c)
            &&& s.commits.dom().contains(c) ==> t.commits.dom().contains(c)
            &&& out is Ok && id == SourceModel::Commit(c) ==> t.commits.dom().contains(c)
                && t.commits[c] == commit_there(objects, c)
            &&& s.commits.dom().contains(c) && s.commits[c] == commit_there(objects, c)
                ==> t.commits[c] == commit_there(objects, c)
        }),
{
    reveal(crate::remote::object_stored);
}

proof fn lemma_batch_taken(
    s: StoreModel,
    objects: ObjectsModel,
    batch: Seq<ObjectModel>,
    i: int,
    c: Seq<u8>,
)
    requires
        0 <= i <= batch.len(),
        forall|k: int| 0 <= k < batch.len() ==> (#[trigger] batch[k]).1 == objects[batch[k].0],
    ensures
        ({
            let (t, out) = crate::remote::store_from(s, batch, i);
            &&& taken_over(s, t, objects, c)
            &&& s.commits.dom().contains(c) ==> t.commits.dom().contains(c)
            &&& out is Ok && has_entry(batch.skip(i), SourceModel::Commit(c))
                ==> t.commits.dom().contains(c) && t.commits[c] == commit_there(objects, c)
            &&& s.commits.dom().contains(c) && s.commits[c] == commit_there(objects, c)
                ==> t.commits[c] == commit_there(objects, c)
        }),
    decreases batch.len() - i,
{
    let id = SourceModel::Commit(c);
    let left = batch.skip(i);
    if i < batch.len() {
        lemma_object_taken(s, objects, batch[i].0, c);
        let (next, out) = crate::remote::object_stored(s, batch[i].0, batch[i].1);
        if out is Ok {
            lemma_batch_taken(next, objects, batch, i + 1, c);
            if has_entry(left, id) {
                let k = choose|k: int| 0 <= k < left.len() && (#[trigger] left[k]).0 == id;
                if k > 0 {
                    assert(batch.skip(i + 1)[k - 1] == left[k]);
                    assert(has_entry(batch.skip(i + 1), id));
                } else {
                    assert(batch[i] == left[0]);
                }
            }
        }
    } else {
        assert(left =~= seq![]);
    }
}

proof fn lemma_get_from(s: StoreModel, u: MemModel, ids: Seq<SourceModel>, i: int, x: SourceModel, c: Seq<u8>)
    requires
        0 <= i <= ids.len(),
    ensures
        ({
            let (t, v, out) = crate::remote::get_from::<MemTransport>(s, u, ids, i);
            &&& holds(s, x) ==> holds(t, x)
            &&& out is Ok && ids.skip(i).contains(x) ==> holds(t, x)
            &&& s.commits.dom().contains(c) ==> t.commits.dom().contains(c)
            &&& s.commits.dom().contains(c) && s.commits[c] == commit_there(u.endpoint.objects, c)
                ==> t.commits[c] == commit_there(u.endpoint.objects, c)
            &&& out is Ok && ids.skip(i).contains(SourceModel::Commit(c))
                ==> t.commits.dom().contains(c) && t.commits[c] == commit_there(
                u.endpoint.objects,
                c,
            )
            &&& t.tracking == s.tracking
            &&& taken_over(s, t, u.endpoint.objects, c)
            &&& v == u
        }),
    decreases ids.len() - i,
{
    let left = ids.skip(i);
    if i < ids.len() {
        let j = crate::remote::batch_end(i, ids.len());
        let part = ids.subrange(i, j);
        let (v, out) = MemTransport::batch_said(u, part);
        assert(v == u);
        if let Ok(batch) = out {
            lemma_found_from(u.endpoint.objects, part, 0, seq![]);
            crate::remote::lemma_store_from(s, batch, 0, x);
            crate::remote::lemma_store_from(s, batch, 0, SourceModel::Commit(c));
            lemma_batch_taken(s, u.endpoint.objects, batch, 0, c);
            let (next, put) = crate::remote::store_from(s, batch, 0);
            if put is Ok {
                lemma_get_from(next, u, ids, j, x, c);
                assert(batch.skip(0) =~= batch);
                if left.contains(x) {
                    lemma_part(ids, i, j, x);
                    if part.contains(x) {
                        let k = choose|k: int| 0 <= k < part.len() && part[k] == x;
                        assert(batch[k].0 == x);
                    }
                }
                if left.contains(SourceModel::Commit(c)) {
                    lemma_part(ids, i, j, SourceModel::Commit(c));
                    if part.contains(SourceModel::Commit(c)) {
                        let k = choose|k: int|
                            0 <= k < part.len() && part[k] == SourceModel::Commit(c);
                        assert(batch[k].0 == SourceModel::Commit(c));
                        assert(has_entry(batch, SourceModel::Commit(c)));
                    }
                }
            }
        }
    } else {
        assert(left =~= seq![]);
    }
}

proof fn lemma_part(ids: Seq<SourceModel>, i: int, j: int, x: SourceModel)
    requires
        0 <= i <= j <= ids.len(),
        ids.skip(i).contains(x),
    ensures
        ids.subrange(i, j).contains(x) || ids.skip(j).contains(x),
{
    let left = ids.skip(i);
    let k = choose|k: int| 0 <= k < left.len() && left[k] == x;
    if i + k < j {
        assert(ids.subrange(i, j)[k] == x);
    } else {
        assert(ids.skip(j)[i + k - j] == x);
    }
}

/// Does a repository hold commits as they are written: under their own ids, each
/// part fitting its field?
pub open spec fn well_kept(s: StoreModel, commits: Seq<Seq<u8>>) -> bool {
    forall|c: Seq<u8>| #[trigger]
        commits.contains(c) ==> crate::commit::commit_fits(s.commits[c])
            && crate::commit::commit_id(s.commits[c]) == c
}

/// A push that went well, of a history that is kept as it is written, to a remote that
/// held nothing else under the ids of its commits.
pub open spec fn pushed_well(
    s: StoreModel,
    t: MemModel,
    remote: Seq<char>,
    branch: Seq<char>,
    force: bool,
    all: Seq<Seq<u8>>,
) -> bool {
    let u = pushed::<MemTransport>(s, t, remote, branch, force).0;
    &&& s.commits.dom().finite()
    &&& pushed::<MemTransport>(s, t, remote, branch, force).1 is Ok
    &&& history_of(s, s.refs[(RefNs::Heads, branch)]) == Ok::<Seq<Seq<u8>>, Fault>(all)
    &&& well_kept(s, all)
    &&& forall|c: Seq<u8>| #[trigger] all.contains(c) ==> alike(s, t, c)
    &&& u.endpoint.objects.dom().finite()
    &&& crate::remote_wire::refs_fit(u.endpoint.refs)
}

/// The remote names the tip, and what the tip needs covers the pushed history.
proof fn lemma_pushed_history(
    s: StoreModel,
    t: MemModel,
    remote: Seq<char>,
    branch: Seq<char>,
    force: bool,
    all: Seq<Seq<u8>>,
    c: Seq<u8>,
)
    requires
        pushed_well(s, t, remote, branch, force, all),
        all.contains(c),
    ensures
        ({
            let tip = s.refs[(RefNs::Heads, branch)];
            let u = pushed::<MemTransport>(s, t, remote, branch, force).0;
            &&& MemTransport::branch_said(u, branch) == (
                u,
                Ok::<Option<Seq<u8>>, Fault>(Some(tip)),
            )
            &&& crate::reach::reaches(
                crate::remote_transport::object_links(u.endpoint.objects),
                set![tip],
                c,
            )
            &&& commit_there(u.endpoint.objects, c) == s.commits[c]
        }),
{
    let tip = s.refs[(RefNs::Heads, branch)];
    let u = pushed::<MemTransport>(s, t, remote, branch, force).0;
    let o = u.endpoint.objects;
    lemma_history(s, tip, all);
    law_push_delivers(s, t, remote, branch, force, all, c);
    lemma_objects_of(s, all, tip);
    lemma_put_objects(
        t,
        objects_of(s, all),
        crate::remote::lists_of(s, all),
        0,
        SourceModel::Commit(tip),
        crate::commit::commit_bytes(s.commits[tip]),
    );
    lemma_branch_said(u, branch);
    let links = crate::commit::parent_links(s.commits);
    let there = crate::remote_transport::object_links(o);
    assert forall|a: Seq<u8>| all.contains(a) implies commit_there(o, a) == s.commits[a]
        && #[trigger] crate::reach::targets(there, a) == crate::reach::targets(links, a) by {
        law_push_delivers(s, t, remote, branch, force, all, a);
        crate::commit::law_commit_roundtrip(s.commits[a], seq![]);
        assert(crate::commit::commit_bytes(s.commits[a]) + seq![] =~= crate::commit::commit_bytes(
            s.commits[a],
        ));
    }
    assert(crate::reach::targets(there, c) == crate::reach::targets(links, c));
    crate::reach::lemma_reached_carries(links, there, set![tip], c);
}

/// A repository that fetches a branch which another one pushed has, when both went
/// well, the tip noted and every commit of its history; those that it did not have
/// before are as the other has them.
pub proof fn law_fetch_gets_what_was_pushed(
    s: StoreModel,
    t: MemModel,
    remote: Seq<char>,
    branch: Seq<char>,
    force: bool,
    other: StoreModel,
    other_remote: Seq<char>,
    all: Seq<Seq<u8>>,
    c: Seq<u8>,
)
    requires
        pushed_well(s, t, remote, branch, force, all),
        fetched::<MemTransport>(
            other,
            pushed::<MemTransport>(s, t, remote, branch, force).0,
            other_remote,
            branch,
        ).2 is Ok,
        all.contains(c),
    ensures
        ({
            let u = pushed::<MemTransport>(s, t, remote, branch, force).0;
            let after = fetched::<MemTransport>(other, u, other_remote, branch).0;
            &&& after.tracking == other.tracking.insert(
                (other_remote, branch),
                s.refs[(RefNs::Heads, branch)],
            )
            &&& after.commits.dom().contains(c)
            &&& !other.commits.dom().contains(c) ==> after.commits[c] == s.commits[c]
        }),
{
    reveal(crate::remote::closure_fetched);
    let tip = s.refs[(RefNs::Heads, branch)];
    let u = pushed::<MemTransport>(s, t, remote, branch, force).0;
    let o = u.endpoint.objects;
    lemma_pushed_history(s, t, remote, branch, force, all, c);
    let ids = crate::remote_transport::closure_ids(o, u.endpoint.snap_lists, tip)->Ok_0;
    lemma_closure_ids(o, u.endpoint.snap_lists, tip, ids, c);
    lemma_missing(other, ids, SourceModel::Commit(c));
    let missing = ids.filter(|id: SourceModel| !holds(other, id));
    lemma_get_from(other, u, missing, 0, SourceModel::Commit(c), c);
}

/// What is asked for and not held is missing.
proof fn lemma_missing(s: StoreModel, ids: Seq<SourceModel>, x: SourceModel)
    requires
        ids.contains(x),
    ensures
        !holds(s, x) ==> ids.filter(|id: SourceModel| !holds(s, id)).skip(0).contains(x),
{
    broadcast use vstd::seq_lib::group_filter_ensures;

    let p = |id: SourceModel| !holds(s, id);
    let missing = ids.filter(p);
    assert(missing.skip(0) =~= missing);
    if !holds(s, x) {
        let k = choose|k: int| 0 <= k < ids.len() && ids[k] == x;
        assert(p(ids[k]));
        assert(missing.contains(ids[k]));
    }
}

/// The snapshots of a commit, as a push lists them.
spec fn snap_ids(s: StoreModel, c: Seq<u8>) -> Seq<Seq<u8>> {
    crate::remote::snap_objects(s, c).map_values(
        |o: ObjectModel| crate::remote_wire::source_bytes(o.0),
    )
}

proof fn lemma_lists_of(s: StoreModel, all: Seq<Seq<u8>>, c: Seq<u8>)
    ensures
        agree(crate::remote::lists_of(s, all), c, snap_ids(s, c)),
        all.contains(c) && s.snapshots.dom().contains(c) ==> has_entry(
            crate::remote::lists_of(s, all),
            c,
        ),
    decreases all.len(),
{
    let whole = crate::remote::lists_of(s, all);
    if all.len() > 0 {
        let d = all.drop_last();
        let x = all.last();
        lemma_lists_of(s, d, c);
        let before = crate::remote::lists_of(s, d);
        assert forall|j: int| 0 <= j < whole.len() && (#[trigger] whole[j]).0 == c implies whole[j].1
            == snap_ids(s, c) by {
            if j < before.len() {
                assert(before[j] == whole[j]);
            }
        }
        if all.contains(c) && s.snapshots.dom().contains(c) {
            if c == x {
                assert(whole[before.len() as int].0 == c);
            } else {
                let k = choose|k: int| 0 <= k < all.len() && all[k] == c;
                assert(d[k] == c);
                let j = choose|j: int| 0 <= j < before.len() && (#[trigger] before[j]).0 == c;
                assert(whole[j] == before[j]);
            }
        }
    } else {
        assert(whole =~= seq![]);
    }
}

/// After a push the remote lists every snapshot of a commit.
proof fn lemma_pushed_listed(
    s: StoreModel,
    t: MemModel,
    remote: Seq<char>,
    branch: Seq<char>,
    force: bool,
    all: Seq<Seq<u8>>,
    c: Seq<u8>,
    table: Seq<char>,
)
    requires
        pushed_well(s, t, remote, branch, force, all),
        all.contains(c),
        s.snapshots.dom().contains(c),
        s.snapshots[c].dom().finite(),
        s.snapshots[c].dom().contains(table),
    ensures
        ({
            let u = pushed::<MemTransport>(s, t, remote, branch, force).0;
            &&& u.endpoint.snap_lists.dom().contains(c)
            &&& u.endpoint.snap_lists[c].contains(
                crate::remote_wire::record_id(c, table, s.snapshots[c][table]),
            )
        }),
{
    let u = pushed::<MemTransport>(s, t, remote, branch, force).0;
    let objects = objects_of(s, all);
    let lists = crate::remote::lists_of(s, all);
    let id = crate::remote_wire::record_id(c, table, s.snapshots[c][table]);
    lemma_lists_of(s, all, c);
    lemma_objects_of(s, all, c);
    assert(objects.len() > 0) by {
        let j = choose|j: int|
            0 <= j < objects.len() && (#[trigger] objects[j]).0 == SourceModel::Commit(c);
    }
    lemma_put_lists(t, objects, lists, 0, c, snap_ids(s, c));
    crate::names::law_ordered(s.snapshots[c].dom());
    let names = crate::names::ordered(s.snapshots[c].dom());
    assert(names.to_set().contains(table));
    let k = choose|k: int| 0 <= k < names.len() && names[k] == table;
    assert(snap_ids(s, c)[k] == id);
}

/// A repository that fetches a branch which another one pushed holds, when both
/// went well, every snapshot of its history.
#[verifier::spinoff_prover]
#[verifier::rlimit(60)]
pub proof fn law_fetch_gets_snapshots(
    s: StoreModel,
    t: MemModel,
    remote: Seq<char>,
    branch: Seq<char>,
    force: bool,
    other: StoreModel,
    other_remote: Seq<char>,
    all: Seq<Seq<u8>>,
    c: Seq<u8>,
    table: Seq<char>,
)
    requires
        pushed_well(s, t, remote, branch, force, all),
        fetched::<MemTransport>(
            other,
            pushed::<MemTransport>(s, t, remote, branch, force).0,
            other_remote,
            branch,
        ).2 is Ok,
        all.contains(c),
        s.snapshots.dom().contains(c),
        s.snapshots[c].dom().finite(),
        s.snapshots[c].dom().contains(table),
    ensures
        ({
            let u = pushed::<MemTransport>(s, t, remote, branch, force).0;
            holds(
                fetched::<MemTransport>(other, u, other_remote, branch).0,
                SourceModel::Snapshot(
                    crate::remote_wire::record_id(c, table, s.snapshots[c][table]),
                ),
            )
        }),
{
    reveal(crate::remote::closure_fetched);
    let tip = s.refs[(RefNs::Heads, branch)];
    let u = pushed::<MemTransport>(s, t, remote, branch, force).0;
    let o = u.endpoint.objects;
    let id = crate::remote_wire::record_id(c, table, s.snapshots[c][table]);
    lemma_pushed_history(s, t, remote, branch, force, all, c);
    lemma_pushed_listed(s, t, remote, branch, force, all, c, table);
    let ids = crate::remote_transport::closure_ids(o, u.endpoint.snap_lists, tip)->Ok_0;
    lemma_closure_ids(o, u.endpoint.snap_lists, tip, ids, c);
    lemma_missing(other, ids, SourceModel::Snapshot(id));
    let missing = ids.filter(|x: SourceModel| !holds(other, x));
    lemma_get_from(other, u, missing, 0, SourceModel::Snapshot(id), c);
}

// ---------------------------------------------------------------------------
// Tables
// ---------------------------------------------------------------------------

/// Does a repository hold a table of a commit with these contents?
pub open spec fn table_is(s: StoreModel, c: Seq<u8>, table: Seq<char>, snap: SnapModel) -> bool {
    &&& s.snapshots.dom().contains(c)
    &&& s.snapshots[c].dom().contains(table)
    &&& s.snapshots[c][table] == snap
}

/// Does a repository have a table of a commit as its record has it, where it holds that
/// record?
pub open spec fn as_held(
    s: StoreModel,
    c: Seq<u8>,
    table: Seq<char>,
    id: SourceModel,
    want: SnapModel,
) -> bool {
    holds(s, id) ==> table_is(s, c, table, want)
}

/// Is an object the record of a table of a commit?
pub open spec fn is_record_of(bytes: Seq<u8>, c: Seq<u8>, table: Seq<char>) -> bool {
    read_record(bytes) matches Some(r) && r.0 == c && r.1 == table
}

/// Does no object but one speak of a table of a commit?
pub open spec fn sole_record(
    objects: ObjectsModel,
    c: Seq<u8>,
    table: Seq<char>,
    id: SourceModel,
) -> bool {
    forall|x: SourceModel| #[trigger]
        objects.dom().contains(x) && x is Snapshot && is_record_of(objects[x], c, table) ==> x == id
}

proof fn lemma_object_table(
    s: StoreModel,
    objects: ObjectsModel,
    x: SourceModel,
    c: Seq<u8>,
    table: Seq<char>,
    id: SourceModel,
    want: SnapModel,
)
    requires
        id is Snapshot,
        objects.dom().contains(x),
        sole_record(objects, c, table, id),
        read_record(objects[id]) == Some((c, table, want)),
    ensures
        ({
            let (t, out) = crate::remote::object_stored(s, x, objects[x]);
            &&& as_held(s, c, table, id, want) ==> as_held(t, c, table, id, want)
            &&& table_is(s, c, table, want) ==> table_is(t, c, table, want)
            &&& out is Ok && x == id ==> table_is(t, c, table, want)
        }),
{
    reveal(crate::remote::object_stored);
    if x is Snapshot && is_record_of(objects[x], c, table) {
        assert(x == id);
    }
}

proof fn lemma_batch_table(
    s: StoreModel,
    objects: ObjectsModel,
    batch: Seq<ObjectModel>,
    i: int,
    c: Seq<u8>,
    table: Seq<char>,
    id: SourceModel,
    want: SnapModel,
)
    requires
        0 <= i <= batch.len(),
        forall|k: int|
            0 <= k < batch.len() ==> (#[trigger] batch[k]).1 == objects[batch[k].0]
                && objects.dom().contains(batch[k].0),
        id is Snapshot,
        sole_record(objects, c, table, id),
        read_record(objects[id]) == Some((c, table, want)),
    ensures
        ({
            let (t, out) = crate::remote::store_from(s, batch, i);
            &&& as_held(s, c, table, id, want) ==> as_held(t, c, table, id, want)
            &&& table_is(s, c, table, want) ==> table_is(t, c, table, want)
            &&& out is Ok && has_entry(batch.skip(i), id) ==> table_is(t, c, table, want)
        }),
    decreases batch.len() - i,
{
    let left = batch.skip(i);
    if i < batch.len() {
        lemma_object_table(s, objects, batch[i].0, c, table, id, want);
        let (next, out) = crate::remote::object_stored(s, batch[i].0, batch[i].1);
        if out is Ok {
            lemma_batch_table(next, objects, batch, i + 1, c, table, id, want);
            if has_entry(left, id) {
                let k = choose|k: int| 0 <= k < left.len() && (#[trigger] left[k]).0 == id;
                if k > 0 {
                    assert(batch.skip(i + 1)[k - 1] == left[k]);
                    assert(has_entry(batch.skip(i + 1), id));
                } else {
                    assert(batch[i] == left[0]);
                }
            }
        }
    } else {
        assert(left =~= seq![]);
    }
}

proof fn lemma_get_table(
    s: StoreModel,
    u: MemModel,
    ids: Seq<SourceModel>,
    i: int,
    c: Seq<u8>,
    table: Seq<char>,
    id: SourceModel,
    want: SnapModel,
)
    requires
        0 <= i <= ids.len(),
        id is Snapshot,
        sole_record(u.endpoint.objects, c, table, id),
        read_record(u.endpoint.objects[id]) == Some((c, table, want)),
    ensures
        ({
            let (t, v, out) = crate::remote::get_from::<MemTransport>(s, u, ids, i);
            &&& as_held(s, c, table, id, want) ==> as_held(t, c, table, id, want)
            &&& table_is(s, c, table, want) ==> table_is(t, c, table, want)
            &&& out is Ok && ids.skip(i).contains(id) ==> table_is(t, c, table, want)
        }),
    decreases ids.len() - i,
{
    let left = ids.skip(i);
    if i < ids.len() {
        let j = crate::remote::batch_end(i, ids.len());
        let part = ids.subrange(i, j);
        let (v, out) = MemTransport::batch_said(u, part);
        assert(v == u);
        if let Ok(batch) = out {
            lemma_found_from(u.endpoint.objects, part, 0, seq![]);
            lemma_batch_table(s, u.endpoint.objects, batch, 0, c, table, id, want);
            let (next, put) = crate::remote::store_from(s, batch, 0);
            if put is Ok {
                lemma_get_table(next, u, ids, j, c, table, id, want);
                assert(batch.skip(0) =~= batch);
                if left.contains(id) {
                    lemma_part(ids, i, j, id);
                    if part.contains(id) {
                        let k = choose|k: int| 0 <= k < part.len() && part[k] == id;
                        assert(batch[k].0 == id);
                        assert(has_entry(batch, id));
                    }
                }
            }
        }
    } else {
        assert(left =~= seq![]);
    }
}

/// Can the tables of a history be written: finitely many at each commit, each part
/// fitting its field?
pub open spec fn tables_fit(s: StoreModel, commits: Seq<Seq<u8>>) -> bool {
    forall|c: Seq<u8>| #[trigger]
        commits.contains(c) ==> {
            let tables = tables_at(s.snapshots, c);
            &&& tables.dom().finite()
            &&& forall|n: Seq<char>| #[trigger]
                tables.dom().contains(n) ==> crate::remote_wire::record_fits(c, n, tables[n])
        }
}

/// Is an object that of a table of one of the commits?
spec fn of_table(s: StoreModel, commits: Seq<Seq<u8>>, o: ObjectModel) -> bool {
    exists|c: Seq<u8>, n: Seq<char>|
        #![trigger tables_at(s.snapshots, c).dom().contains(n)]
        commits.contains(c) && tables_at(s.snapshots, c).dom().contains(n)
            && o == crate::remote::snap_object(c, n, tables_at(s.snapshots, c)[n])
}

/// The snapshots among the objects of commits are those of their tables.
proof fn lemma_table_objects(s: StoreModel, whole: Seq<Seq<u8>>, all: Seq<Seq<u8>>, n: int)
    requires
        tables_fit(s, whole),
        0 <= n <= whole.len(),
        all == whole.take(n),
    ensures
        forall|j: int|
            0 <= j < objects_of(s, all).len() && (#[trigger] objects_of(s, all)[j]).0 is Snapshot
                ==> of_table(s, whole, objects_of(s, all)[j]),
        forall|c: Seq<u8>, t: Seq<char>|
            #![trigger all.contains(c), tables_at(s.snapshots, c).dom().contains(t)]
            all.contains(c) && tables_at(s.snapshots, c).dom().contains(t) ==> objects_of(
                s,
                all,
            ).contains(crate::remote::snap_object(c, t, tables_at(s.snapshots, c)[t])),
    decreases n,
{
    if n > 0 {
        let d = whole.take(n - 1);
        let x = whole[n - 1];
        assert(all.drop_last() =~= d);
        assert(all.last() == x);
        assert(whole.contains(x));
        lemma_table_objects(s, whole, d, n - 1);
        let o = objects_of(s, d);
        let tables = tables_at(s.snapshots, x);
        let names = crate::names::ordered(tables.dom());
        crate::names::law_ordered(tables.dom());
        let own: ObjectModel = (
            SourceModel::Commit(x),
            crate::commit::commit_bytes(s.commits[x]),
        );
        let snaps = crate::remote::snap_objects(s, x);
        let now = objects_of(s, all);
        assert(now == o.push(own) + snaps);
        assert forall|j: int| 0 <= j < now.len() && (#[trigger] now[j]).0 is Snapshot implies of_table(
            s,
            whole,
            now[j],
        ) by {
            if j < o.len() {
                assert(o[j] == now[j]);
            } else if j == o.len() {
                assert(now[j] == own);
            } else {
                let k = j - o.len() - 1;
                assert(now[j] == snaps[k]);
                assert(names.to_set().contains(names[k]));
                assert(tables.dom().contains(names[k]));
            }
        }
        assert forall|c: Seq<u8>, t: Seq<char>|
            #![trigger all.contains(c), tables_at(s.snapshots, c).dom().contains(t)]
            all.contains(c) && tables_at(s.snapshots, c).dom().contains(t) implies now.contains(
            crate::remote::snap_object(c, t, tables_at(s.snapshots, c)[t]),
        ) by {
            let want = crate::remote::snap_object(c, t, tables_at(s.snapshots, c)[t]);
            if c == x {
                assert(names.to_set().contains(t));
                let k = choose|k: int| 0 <= k < names.len() && names[k] == t;
                assert(snaps[k] == want);
                assert(now[o.len() + 1 + k] == want);
            } else {
                let k = choose|k: int| 0 <= k < all.len() && all[k] == c;
                assert(d[k] == c);
                assert(d.contains(c));
                assert(o.contains(want));
                let j = choose|j: int| 0 <= j < o.len() && o[j] == want;
                assert(now[j] == want);
            }
        }
    } else {
        assert(all =~= seq![]);
    }
}

/// What a remote in memory holds after a push it held before, or was sent; what it held
/// before it holds as it was.
proof fn lemma_put_origin(
    t: MemModel,
    objects: Seq<ObjectModel>,
    lists: Seq<ListModel>,
    i: int,
    x: SourceModel,
)
    requires
        0 <= i <= objects.len(),
    ensures
        ({
            let u = crate::remote::put_from::<MemTransport>(t, objects, lists, i).0;
            &&& u.endpoint.objects.dom().contains(x) ==> {
                ||| t.endpoint.objects.dom().contains(x) && u.endpoint.objects[x]
                    == t.endpoint.objects[x]
                ||| objects.contains((x, u.endpoint.objects[x]))
            }
            &&& t.endpoint.objects.dom().contains(x) ==> u.endpoint.objects.dom().contains(x)
                && u.endpoint.objects[x] == t.endpoint.objects[x]
        }),
    decreases objects.len() - i,
{
    if i < objects.len() {
        let j = crate::remote::batch_end(i, objects.len());
        let part = objects.subrange(i, j);
        lemma_presence(t, part);
        if let Ok(present) = MemTransport::presence_said(t, crate::remote::object_ids(part)).1 {
            let sent = crate::remote::absent(part, present, part.len() as int);
            let (next, out) = MemTransport::put_said(t, sent, lists);
            lemma_absent(part, present, part.len() as int);
            lemma_put_batch(t, sent, lists);
            crate::remote_transport::lemma_put_all(t.endpoint.objects, sent, x);
            assert forall|k: int| 0 <= k < sent.len() implies objects.contains(
                #[trigger] sent[k],
            ) && !t.endpoint.objects.dom().contains(sent[k].0) by {
                assert(left_out(part, present, part.len() as int, sent[k]));
                let m = choose|m: int|
                    0 <= m < part.len() && !present[m] && #[trigger] part[m] == sent[k];
                assert(objects[i + m] == sent[k]);
            }
            if out is Ok {
                lemma_put_origin(next, objects, lists, j, x);
            }
        }
    }
}

/// Of the objects of tables, one alone speaks of a table of a commit.
proof fn lemma_speaks(
    s: StoreModel,
    all: Seq<Seq<u8>>,
    o: ObjectModel,
    c: Seq<u8>,
    table: Seq<char>,
)
    requires
        tables_fit(s, all),
        of_table(s, all, o),
        is_record_of(o.1, c, table),
    ensures
        o == crate::remote::snap_object(c, table, tables_at(s.snapshots, c)[table]),
{
    let (d, n) = choose|d: Seq<u8>, n: Seq<char>|
        #![trigger tables_at(s.snapshots, d).dom().contains(n)]
        all.contains(d) && tables_at(s.snapshots, d).dom().contains(n) && o
            == crate::remote::snap_object(d, n, tables_at(s.snapshots, d)[n]);
    crate::remote_wire::law_record_roundtrip(d, n, tables_at(s.snapshots, d)[n]);
}

/// Sending objects of which one alone speaks of a table leaves it so.
proof fn lemma_put_sole(
    t: MemModel,
    objects: Seq<ObjectModel>,
    lists: Seq<ListModel>,
    c: Seq<u8>,
    table: Seq<char>,
    id: SourceModel,
)
    requires
        sole_record(t.endpoint.objects, c, table, id),
        forall|j: int|
            0 <= j < objects.len() && (#[trigger] objects[j]).0 is Snapshot && is_record_of(
                objects[j].1,
                c,
                table,
            ) ==> objects[j].0 == id,
    ensures
        sole_record(
            crate::remote::put_from::<MemTransport>(t, objects, lists, 0).0.endpoint.objects,
            c,
            table,
            id,
        ),
{
    let o = crate::remote::put_from::<MemTransport>(t, objects, lists, 0).0.endpoint.objects;
    assert forall|x: SourceModel| #[trigger]
        o.dom().contains(x) && x is Snapshot && is_record_of(o[x], c, table) implies x == id by {
        lemma_put_origin(t, objects, lists, 0, x);
        if objects.contains((x, o[x])) {
            let k = choose|k: int| 0 <= k < objects.len() && objects[k] == (x, o[x]);
            assert(objects[k].0 is Snapshot);
        } else {
            assert(t.endpoint.objects.dom().contains(x));
        }
    }
}

/// The objects of a history, of which one alone speaks of a table of a commit.
proof fn lemma_history_speaks(s: StoreModel, all: Seq<Seq<u8>>, c: Seq<u8>, table: Seq<char>)
    requires
        tables_fit(s, all),
        all.contains(c),
        tables_at(s.snapshots, c).dom().contains(table),
    ensures
        ({
            let own = crate::remote::snap_object(c, table, tables_at(s.snapshots, c)[table]);
            &&& has_entry(objects_of(s, all), own.0)
            &&& forall|j: int|
                0 <= j < objects_of(s, all).len() && (#[trigger] objects_of(s, all)[j]).0 is Snapshot
                    && is_record_of(objects_of(s, all)[j].1, c, table) ==> objects_of(s, all)[j].0
                    == own.0
        }),
{
    let own = crate::remote::snap_object(c, table, tables_at(s.snapshots, c)[table]);
    let objects = objects_of(s, all);
    assert(all.take(all.len() as int) =~= all);
    lemma_table_objects(s, all, all, all.len() as int);
    assert(objects.contains(own));
    let j = choose|j: int| 0 <= j < objects.len() && objects[j] == own;
    assert(objects[j].0 == own.0);
    assert forall|j: int|
        0 <= j < objects.len() && (#[trigger] objects[j]).0 is Snapshot && is_record_of(
            objects[j].1,
            c,
            table,
        ) implies objects[j].0 == own.0 by {
        lemma_speaks(s, all, objects[j], c, table);
    }
}

/// After a push the remote holds the record of a table, and no other object speaks of
/// that table of that commit.
proof fn lemma_pushed_table(
    s: StoreModel,
    t: MemModel,
    remote: Seq<char>,
    branch: Seq<char>,
    force: bool,
    all: Seq<Seq<u8>>,
    c: Seq<u8>,
    table: Seq<char>,
)
    requires
        pushed_well(s, t, remote, branch, force, all),
        tables_fit(s, all),
        all.contains(c),
        tables_at(s.snapshots, c).dom().contains(table),
        table_alike(s, t, all, c, table),
    ensures
        ({
            let u = pushed::<MemTransport>(s, t, remote, branch, force).0;
            let own = crate::remote::snap_object(c, table, tables_at(s.snapshots, c)[table]);
            &&& u.endpoint.objects.dom().contains(own.0)
            &&& sole_record(u.endpoint.objects, c, table, own.0)
            &&& u.endpoint.objects[own.0] == own.1
        }),
{
    let own = crate::remote::snap_object(c, table, tables_at(s.snapshots, c)[table]);
    let objects = objects_of(s, all);
    let lists = crate::remote::lists_of(s, all);
    lemma_history_speaks(s, all, c, table);
    assert(objects.skip(0) =~= objects);
    lemma_put_objects(t, objects, lists, 0, own.0, own.1);
    lemma_put_sole(t, objects, lists, c, table, own.0);
}

/// Is a table of a commit told from the others by its id, among what is pushed and what
/// the remote held before?
pub open spec fn table_alike(
    s: StoreModel,
    t: MemModel,
    all: Seq<Seq<u8>>,
    c: Seq<u8>,
    table: Seq<char>,
) -> bool {
    let own = crate::remote::snap_object(c, table, tables_at(s.snapshots, c)[table]);
    &&& agree(objects_of(s, all), own.0, own.1)
    &&& t.endpoint.objects.dom().contains(own.0) ==> t.endpoint.objects[own.0] == own.1
    &&& sole_record(t.endpoint.objects, c, table, own.0)
}

/// A repository that fetches a branch which another one pushed has, when both went
/// well, the tables of its history as the other has them, with their rows in canonical
/// order, unless it held such a record before.
#[verifier::spinoff_prover]
#[verifier::rlimit(60)]
pub proof fn law_fetch_gets_tables(
    s: StoreModel,
    t: MemModel,
    remote: Seq<char>,
    branch: Seq<char>,
    force: bool,
    other: StoreModel,
    other_remote: Seq<char>,
    all: Seq<Seq<u8>>,
    c: Seq<u8>,
    table: Seq<char>,
)
    requires
        pushed_well(s, t, remote, branch, force, all),
        fetched::<MemTransport>(
            other,
            pushed::<MemTransport>(s, t, remote, branch, force).0,
            other_remote,
            branch,
        ).2 is Ok,
        tables_fit(s, all),
        all.contains(c),
        s.snapshots.dom().contains(c),
        s.snapshots[c].dom().contains(table),
        table_alike(s, t, all, c, table),
        !holds(other, crate::remote::snap_object(c, table, s.snapshots[c][table]).0),
    ensures
        ({
            let u = pushed::<MemTransport>(s, t, remote, branch, force).0;
            table_is(
                fetched::<MemTransport>(other, u, other_remote, branch).0,
                c,
                table,
                crate::remote_wire::canonical(s.snapshots[c][table]),
            )
        }),
{
    reveal(crate::remote::closure_fetched);
    let tip = s.refs[(RefNs::Heads, branch)];
    let u = pushed::<MemTransport>(s, t, remote, branch, force).0;
    let o = u.endpoint.objects;
    let snap = s.snapshots[c][table];
    let id = crate::remote::snap_object(c, table, snap).0;
    lemma_pushed_table(s, t, remote, branch, force, all, c, table);
    crate::remote_wire::law_record_roundtrip(c, table, snap);
    lemma_pushed_listed(s, t, remote, branch, force, all, c, table);
    let ids = crate::remote_transport::closure_ids(o, u.endpoint.snap_lists, tip)->Ok_0;
    lemma_pushed_history(s, t, remote, branch, force, all, c);
    lemma_closure_ids(o, u.endpoint.snap_lists, tip, ids, c);
    lemma_missing(other, ids, id);
    let missing = ids.filter(|x: SourceModel| !holds(other, x));
    lemma_get_table(other, u, missing, 0, c, table, id, crate::remote_wire::canonical(snap));
}

// ---------------------------------------------------------------------------
// Sound remotes
// ---------------------------------------------------------------------------

/// Does every object of a remote pass verification under its id, and is every snapshot
/// that it lists there?
pub open spec fn sound_remote(ep: EndpointModel) -> bool {
    &&& forall|x: SourceModel| #[trigger]
        ep.objects.dom().contains(x) ==> crate::remote_wire::verified(x, ep.objects[x]) is Ok
    &&& forall|c: Seq<u8>, y: Seq<u8>|
        ep.snap_lists.dom().contains(c) && #[trigger] ep.snap_lists[c].contains(y)
            ==> ep.objects.dom().contains(SourceModel::Snapshot(y))
}

/// The commits among the objects of commits are those commits.
proof fn lemma_commit_objects(s: StoreModel, all: Seq<Seq<u8>>)
    ensures
        forall|j: int|
            0 <= j < objects_of(s, all).len() ==> ((#[trigger] objects_of(s, all)[j]).0 matches
                SourceId::Commit(c) ==> all.contains(c)),
    decreases all.len(),
{
    if all.len() > 0 {
        let d = all.drop_last();
        let x = all.last();
        lemma_commit_objects(s, d);
        let o = objects_of(s, d);
        let snaps = crate::remote::snap_objects(s, x);
        let whole = objects_of(s, all);
        assert forall|j: int| 0 <= j < whole.len() implies ((#[trigger] whole[j]).0 matches
            SourceId::Commit(c) ==> all.contains(c)) by {
            if j < o.len() {
                assert(o[j] == whole[j]);
                if let SourceId::Commit(c) = whole[j].0 {
                    assert(d.contains(c));
                    let k = choose|k: int| 0 <= k < d.len() && d[k] == c;
                    assert(all[k] == c);
                }
            } else if j == o.len() {
                assert(all[all.len() - 1] == x);
            } else {
                assert(whole[j] == snaps[j - o.len() - 1]);
            }
        }
    }
}

/// The lists of commits are those of their snapshots.
proof fn lemma_list_entries(s: StoreModel, all: Seq<Seq<u8>>)
    ensures
        forall|j: int|
            0 <= j < crate::remote::lists_of(s, all).len() ==> all.contains(
                (#[trigger] crate::remote::lists_of(s, all)[j]).0,
            ) && crate::remote::lists_of(s, all)[j].1 == snap_ids(
                s,
                crate::remote::lists_of(s, all)[j].0,
            ),
    decreases all.len(),
{
    if all.len() > 0 {
        let d = all.drop_last();
        lemma_list_entries(s, d);
        let before = crate::remote::lists_of(s, d);
        let whole = crate::remote::lists_of(s, all);
        assert forall|j: int| 0 <= j < whole.len() implies all.contains((#[trigger] whole[j]).0)
            && whole[j].1 == snap_ids(s, whole[j].0) by {
            if j < before.len() {
                assert(before[j] == whole[j]);
                let k = choose|k: int| 0 <= k < d.len() && d[k] == whole[j].0;
                assert(all[k] == whole[j].0);
            } else {
                assert(all[all.len() - 1] == whole[j].0);
            }
        }
    }
}

/// The snapshots of a commit of a history are among its objects.
proof fn lemma_own_objects(s: StoreModel, all: Seq<Seq<u8>>, c: Seq<u8>, y: Seq<u8>)
    requires
        all.contains(c),
        snap_ids(s, c).contains(y),
    ensures
        has_entry(objects_of(s, all), SourceModel::Snapshot(y)),
    decreases all.len(),
{
    let d = all.drop_last();
    let x = all.last();
    let o = objects_of(s, d);
    let snaps = crate::remote::snap_objects(s, x);
    let whole = objects_of(s, all);
    if c == x {
        let k = choose|k: int| 0 <= k < snap_ids(s, c).len() && snap_ids(s, c)[k] == y;
        assert(whole[o.len() + 1 + k] == snaps[k]);
        assert(snaps[k].0 is Snapshot);
    } else {
        let k = choose|k: int| 0 <= k < all.len() && all[k] == c;
        assert(d[k] == c);
        lemma_own_objects(s, d, c, y);
        let j = choose|j: int| 0 <= j < o.len() && (#[trigger] o[j]).0 == SourceModel::Snapshot(y);
        assert(whole[j] == o[j]);
    }
}

/// What a remote in memory lists after a push it listed before, or was told; a push
/// that fails leaves it as it was.
proof fn lemma_put_lists_origin(
    t: MemModel,
    objects: Seq<ObjectModel>,
    lists: Seq<ListModel>,
    i: int,
    c: Seq<u8>,
)
    requires
        0 <= i <= objects.len(),
    ensures
        ({
            let (u, out) = crate::remote::put_from::<MemTransport>(t, objects, lists, i);
            &&& out is Err ==> u == t
            &&& u.endpoint.refs == t.endpoint.refs
            &&& u.endpoint.snap_lists.dom().contains(c) ==> {
                ||| t.endpoint.snap_lists.dom().contains(c) && u.endpoint.snap_lists[c]
                    == t.endpoint.snap_lists[c]
                ||| lists.contains((c, u.endpoint.snap_lists[c]))
            }
        }),
    decreases objects.len() - i,
{
    if i < objects.len() {
        let j = crate::remote::batch_end(i, objects.len());
        let part = objects.subrange(i, j);
        lemma_presence(t, part);
        if let Ok(present) = MemTransport::presence_said(t, crate::remote::object_ids(part)).1 {
            let sent = crate::remote::absent(part, present, part.len() as int);
            let (next, out) = MemTransport::put_said(t, sent, lists);
            lemma_put_batch(t, sent, lists);
            crate::remote_transport::lemma_put_all(t.endpoint.snap_lists, lists, c);
            if out is Ok {
                lemma_put_lists_origin(next, objects, lists, j, c);
                lemma_put_answers(next, objects, lists, j);
            }
        }
    }
}

/// A remote in memory that the caller may use takes every batch.
proof fn lemma_put_answers(t: MemModel, objects: Seq<ObjectModel>, lists: Seq<ListModel>, i: int)
    requires
        0 <= i <= objects.len(),
        !t.endpoint.auth_required || t.kid is Some,
    ensures
        crate::remote::put_from::<MemTransport>(t, objects, lists, i).1 is Ok,
    decreases objects.len() - i,
{
    if i < objects.len() {
        let j = crate::remote::batch_end(i, objects.len());
        let part = objects.subrange(i, j);
        lemma_presence(t, part);
        let present = MemTransport::presence_said(t, crate::remote::object_ids(part)).1->Ok_0;
        let sent = crate::remote::absent(part, present, part.len() as int);
        lemma_put_batch(t, sent, lists);
        lemma_put_answers(MemTransport::put_said(t, sent, lists).0, objects, lists, j);
    }
}

/// A push to a sound remote leaves it sound, however it ends.
pub proof fn law_push_keeps_remote_sound(
    s: StoreModel,
    t: MemModel,
    remote: Seq<char>,
    branch: Seq<char>,
    force: bool,
)
    requires
        sound_remote(t.endpoint),
        history_of(s, s.refs[(RefNs::Heads, branch)]) matches Ok(all) ==> well_kept(s, all)
            && tables_fit(s, all),
    ensures
        sound_remote(pushed::<MemTransport>(s, t, remote, branch, force).0.endpoint),
{
    if let Ok(all) = history_of(s, s.refs[(RefNs::Heads, branch)]) {
        let objects = objects_of(s, all);
        let lists = crate::remote::lists_of(s, all);
        let (u, out) = crate::remote::put_from::<MemTransport>(t, objects, lists, 0);
        lemma_put_sound(s, t, all);
        assert(sound_remote(u.endpoint));
    }
}

proof fn lemma_put_sound(s: StoreModel, t: MemModel, all: Seq<Seq<u8>>)
    requires
        sound_remote(t.endpoint),
        well_kept(s, all),
        tables_fit(s, all),
    ensures
        sound_remote(
            crate::remote::put_from::<MemTransport>(
                t,
                objects_of(s, all),
                crate::remote::lists_of(s, all),
                0,
            ).0.endpoint,
        ),
{
    let objects = objects_of(s, all);
    let lists = crate::remote::lists_of(s, all);
    let (u, out) = crate::remote::put_from::<MemTransport>(t, objects, lists, 0);
    let o = u.endpoint.objects;
    assert(all.take(all.len() as int) =~= all);
    lemma_table_objects(s, all, all, all.len() as int);
    lemma_commit_objects(s, all);
    assert forall|x: SourceModel| #[trigger]
        o.dom().contains(x) implies crate::remote_wire::verified(x, o[x]) is Ok by {
        lemma_put_origin(t, objects, lists, 0, x);
        if objects.contains((x, o[x])) {
            let k = choose|k: int| 0 <= k < objects.len() && objects[k] == (x, o[x]);
            match x {
                SourceId::Commit(c) => {
                    lemma_objects_of(s, all, c);
                    assert(all.contains(c));
                    crate::remote_wire::law_commit_verifies(s.commits[c]);
                },
                SourceId::Snapshot(_) => {
                    assert(of_table(s, all, objects[k]));
                    lemma_table_verifies(s, all, objects[k]);
                },
            }
        } else {
            assert(t.endpoint.objects.dom().contains(x));
        }
    }
    assert forall|c: Seq<u8>, y: Seq<u8>|
        u.endpoint.snap_lists.dom().contains(c) && #[trigger] u.endpoint.snap_lists[c].contains(
            y,
        ) implies o.dom().contains(SourceModel::Snapshot(y)) by {
        lemma_put_lists_origin(t, objects, lists, 0, c);
        lemma_put_present(t, objects, lists, 0, SourceModel::Snapshot(y));
        if out is Ok && lists.contains((c, u.endpoint.snap_lists[c])) {
            let k = choose|k: int|
                0 <= k < lists.len() && lists[k] == (c, u.endpoint.snap_lists[c]);
            lemma_list_entries(s, all);
            lemma_own_objects(s, all, c, y);
            assert(objects.skip(0) =~= objects);
        } else {
            assert(t.endpoint.snap_lists[c].contains(y));
        }
    }
}

proof fn lemma_table_verifies(s: StoreModel, all: Seq<Seq<u8>>, o: ObjectModel)
    requires
        tables_fit(s, all),
        of_table(s, all, o),
    ensures
        crate::remote_wire::verified(o.0, o.1) is Ok,
{
    let (d, n) = choose|d: Seq<u8>, n: Seq<char>|
        #![trigger tables_at(s.snapshots, d).dom().contains(n)]
        all.contains(d) && tables_at(s.snapshots, d).dom().contains(n) && o
            == crate::remote::snap_object(d, n, tables_at(s.snapshots, d)[n]);
    crate::remote_wire::law_record_verifies(d, n, tables_at(s.snapshots, d)[n]);
}

/// After a push the remote holds the links of the pushed history.
proof fn lemma_pushed_links(
    s: StoreModel,
    t: MemModel,
    remote: Seq<char>,
    branch: Seq<char>,
    force: bool,
    all: Seq<Seq<u8>>,
    a: Seq<u8>,
)
    requires
        pushed_well(s, t, remote, branch, force, all),
        all.contains(a),
    ensures
        ({
            let o = pushed::<MemTransport>(s, t, remote, branch, force).0.endpoint.objects;
            &&& o.dom().contains(SourceModel::Commit(a))
            &&& crate::walk::readable(crate::remote_transport::readings(o), a)
            &&& crate::reach::targets(crate::remote_transport::object_links(o), a)
                == crate::reach::targets(crate::commit::parent_links(s.commits), a)
        }),
{
    let tip = s.refs[(RefNs::Heads, branch)];
    lemma_history(s, tip, all);
    law_push_delivers(s, t, remote, branch, force, all, a);
    crate::commit::law_commit_roundtrip(s.commits[a], seq![]);
    assert(crate::commit::commit_bytes(s.commits[a]) + seq![] =~= crate::commit::commit_bytes(
        s.commits[a],
    ));
}

/// Where every commit of a closed history can be read, what its tip needs can be told.
proof fn lemma_closure_told(
    o: ObjectsModel,
    lists: Map<Seq<u8>, Seq<Seq<u8>>>,
    tip: Seq<u8>,
    all: Seq<Seq<u8>>,
)
    requires
        o.dom().finite(),
        all.contains(tip),
        forall|a: Seq<u8>| #[trigger]
            all.contains(a) ==> crate::walk::readable(crate::remote_transport::readings(o), a),
        forall|a: Seq<u8>, b: Seq<u8>|
            all.contains(a) && #[trigger] crate::reach::targets(
                crate::remote_transport::object_links(o),
                a,
            ).contains(b) ==> all.contains(b),
    ensures
        crate::remote_transport::closure_ids(o, lists, tip) matches Ok(ids) && forall|k: int|
            0 <= k < ids.len() ==> match #[trigger] ids[k] {
                SourceId::Commit(c) => all.contains(c),
                SourceId::Snapshot(y) => crate::remote_transport::listed(all, lists, y),
            },
{
    let there = crate::remote_transport::object_links(o);
    let read = crate::remote_transport::readings(o);
    let whole = all.to_set();
    assert forall|x: Seq<u8>| #[trigger]
        crate::reach::reaches(there, set![tip], x) implies all.contains(x) by {
        crate::reach::lemma_reached_within(there, set![tip], whole, x);
        assert(whole.contains(x));
    }
    crate::remote_transport::lemma_readings_finite(o);
    crate::walk::law_walk_sees_the_history(read, crate::remote_transport::lost_commit(), tip);
    let seen = crate::walk::history(read, crate::remote_transport::lost_commit(), tip)->Ok_0;
    let set = crate::remote_transport::ids_of(seen, lists);
    lemma_ids_finite(seen, lists);
    crate::remote_transport::lemma_source_order();
    let found = crate::sorting::lemma_increasing_exists(set, crate::remote_transport::source_lt());
    let ids = crate::remote_transport::ordered_ids(set);
    assert(ids.to_set() == set);
    assert forall|k: int| 0 <= k < ids.len() implies match #[trigger] ids[k] {
        SourceId::Commit(c) => all.contains(c),
        SourceId::Snapshot(y) => crate::remote_transport::listed(all, lists, y),
    } by {
        assert(ids.to_set().contains(ids[k]));
        if let SourceId::Snapshot(y) = ids[k] {
            assert(crate::remote_transport::listed(seen, lists, y));
            let c = choose|c: Seq<u8>| #[trigger]
                seen.contains(c) && lists.dom().contains(c) && lists[c].contains(y);
            assert(all.contains(c));
        }
    }
}

/// After a push to a sound remote it can tell all that the tip needs, and holds it.
proof fn lemma_pushed_closure(
    s: StoreModel,
    t: MemModel,
    remote: Seq<char>,
    branch: Seq<char>,
    force: bool,
    all: Seq<Seq<u8>>,
)
    requires
        pushed_well(s, t, remote, branch, force, all),
        sound_remote(pushed::<MemTransport>(s, t, remote, branch, force).0.endpoint),
    ensures
        ({
            let u = pushed::<MemTransport>(s, t, remote, branch, force).0;
            &&& crate::remote_transport::closure_ids(
                u.endpoint.objects,
                u.endpoint.snap_lists,
                s.refs[(RefNs::Heads, branch)],
            ) matches Ok(ids) && forall|k: int|
                0 <= k < ids.len() ==> u.endpoint.objects.dom().contains(#[trigger] ids[k])
            &&& !u.endpoint.auth_required || u.kid is Some
        }),
{
    let u = pushed::<MemTransport>(s, t, remote, branch, force).0;
    let tip = s.refs[(RefNs::Heads, branch)];
    let o = u.endpoint.objects;
    let lists = u.endpoint.snap_lists;
    let links = crate::commit::parent_links(s.commits);
    lemma_history(s, tip, all);
    lemma_pushed_history(s, t, remote, branch, force, all, tip);
    assert forall|a: Seq<u8>| #[trigger] all.contains(a) implies crate::walk::readable(
        crate::remote_transport::readings(o),
        a,
    ) && o.dom().contains(SourceModel::Commit(a)) by {
        lemma_pushed_links(s, t, remote, branch, force, all, a);
    }
    assert forall|a: Seq<u8>, b: Seq<u8>|
        all.contains(a) && #[trigger] crate::reach::targets(
            crate::remote_transport::object_links(o),
            a,
        ).contains(b) implies all.contains(b) by {
        lemma_pushed_links(s, t, remote, branch, force, all, a);
        crate::reach::lemma_target_reached(links, set![tip], a, b);
    }
    lemma_closure_told(o, lists, tip, all);
    let ids = crate::remote_transport::closure_ids(o, lists, tip)->Ok_0;
    assert forall|k: int| 0 <= k < ids.len() implies o.dom().contains(#[trigger] ids[k]) by {
        match ids[k] {
            SourceId::Commit(c) => {
                assert(all.contains(c));
            },
            SourceId::Snapshot(y) => {
                let c = choose|c: Seq<u8>| #[trigger]
                    all.contains(c) && lists.dom().contains(c) && lists[c].contains(y);
                assert(lists[c].contains(y));
            },
        }
    }
}

proof fn lemma_found_all(
    objects: ObjectsModel,
    ids: Seq<SourceModel>,
    i: int,
    found: Seq<ObjectModel>,
)
    requires
        0 <= i <= ids.len(),
        forall|k: int| 0 <= k < ids.len() ==> objects.dom().contains(#[trigger] ids[k]),
    ensures
        crate::remote_transport::found_from(objects, ids, i, found) is Ok,
    decreases ids.len() - i,
{
    if i < ids.len() {
        lemma_found_all(objects, ids, i + 1, found.push((ids[i], objects[ids[i]])));
    }
}

/// A sound remote gives a batch that it holds, and what it gives is stored.
proof fn lemma_batch_answers(s: StoreModel, u: MemModel, part: Seq<SourceModel>)
    requires
        sound_remote(u.endpoint),
        !u.endpoint.auth_required || u.kid is Some,
        forall|k: int|
            0 <= k < part.len() ==> u.endpoint.objects.dom().contains(#[trigger] part[k]),
    ensures
        MemTransport::batch_said(u, part).0 == u,
        MemTransport::batch_said(u, part).1 matches Ok(batch) && crate::remote::store_from(
            s,
            batch,
            0,
        ).1 is Ok,
{
    lemma_found_all(u.endpoint.objects, part, 0, seq![]);
    lemma_found_from(u.endpoint.objects, part, 0, seq![]);
    let batch = MemTransport::batch_said(u, part).1->Ok_0;
    assert forall|k: int| 0 <= k < batch.len() implies crate::remote_wire::verified(
        (#[trigger] batch[k]).0,
        batch[k].1,
    ) is Ok by {
        assert(u.endpoint.objects.dom().contains(part[k]));
    }
    crate::remote::lemma_store_from(s, batch, 0, SourceModel::Commit(seq![]));
}

/// A sound remote gives all that it holds.
#[verifier::spinoff_prover]
#[verifier::rlimit(60)]
proof fn lemma_get_answers(s: StoreModel, u: MemModel, ids: Seq<SourceModel>, i: int)
    requires
        0 <= i <= ids.len(),
        sound_remote(u.endpoint),
        !u.endpoint.auth_required || u.kid is Some,
        forall|k: int| 0 <= k < ids.len() ==> u.endpoint.objects.dom().contains(#[trigger] ids[k]),
    ensures
        crate::remote::get_from::<MemTransport>(s, u, ids, i).1 == u,
        crate::remote::get_from::<MemTransport>(s, u, ids, i).2 is Ok,
    decreases ids.len() - i,
{
    if i < ids.len() {
        let j = crate::remote::batch_end(i, ids.len());
        let part = ids.subrange(i, j);
        assert forall|k: int| 0 <= k < part.len() implies u.endpoint.objects.dom().contains(
            #[trigger] part[k],
        ) by {
            assert(part[k] == ids[i + k]);
        }
        lemma_batch_answers(s, u, part);
        let batch = MemTransport::batch_said(u, part).1->Ok_0;
        lemma_get_answers(crate::remote::store_from(s, batch, 0).0, u, ids, j);
    }
}

/// What a tip needs can be fetched from a sound remote that can tell it and holds it.
proof fn lemma_closure_answers(u: MemModel, tip: Seq<u8>, ids: Seq<SourceModel>, other: StoreModel)
    requires
        sound_remote(u.endpoint),
        !u.endpoint.auth_required || u.kid is Some,
        crate::remote_transport::closure_ids(u.endpoint.objects, u.endpoint.snap_lists, tip) == Ok::<
            Seq<SourceModel>,
            Fault,
        >(ids),
        forall|k: int| 0 <= k < ids.len() ==> u.endpoint.objects.dom().contains(#[trigger] ids[k]),
    ensures
        crate::remote::closure_fetched::<MemTransport>(other, u, tip).1 == u,
        crate::remote::closure_fetched::<MemTransport>(other, u, tip).2 is Ok,
{
    reveal(crate::remote::closure_fetched);
    let p = |id: SourceModel| !holds(other, id);
    let missing = ids.filter(p);
    assert forall|k: int| 0 <= k < missing.len() implies u.endpoint.objects.dom().contains(
        #[trigger] missing[k],
    ) by {
        assert(missing.contains(missing[k]));
        ids.lemma_filter_contains_rev(p, missing[k]);
    }
    lemma_get_answers(other, u, missing, 0);
}

/// A branch that was pushed to a sound remote can be fetched by a repository that knows
/// the remote.
pub proof fn law_pushed_branch_can_be_fetched(
    s: StoreModel,
    t: MemModel,
    remote: Seq<char>,
    branch: Seq<char>,
    force: bool,
    all: Seq<Seq<u8>>,
    other: StoreModel,
    other_remote: Seq<char>,
)
    requires
        pushed_well(s, t, remote, branch, force, all),
        sound_remote(t.endpoint),
        tables_fit(s, all),
        crate::remote::url_of(other, other_remote) is Some,
    ensures
        fetched::<MemTransport>(
            other,
            pushed::<MemTransport>(s, t, remote, branch, force).0,
            other_remote,
            branch,
        ).2 is Ok,
{
    let tip = s.refs[(RefNs::Heads, branch)];
    lemma_history(s, tip, all);
    lemma_pushed_history(s, t, remote, branch, force, all, tip);
    let u = pushed::<MemTransport>(s, t, remote, branch, force).0;
    law_push_keeps_remote_sound(s, t, remote, branch, force);
    lemma_pushed_closure(s, t, remote, branch, force, all);
    let ids = crate::remote_transport::closure_ids(
        u.endpoint.objects,
        u.endpoint.snap_lists,
        tip,
    )->Ok_0;
    lemma_closure_answers(u, tip, ids, other);
}

// ---------------------------------------------------------------------------
// References move last
// ---------------------------------------------------------------------------

/// A push that fails moves no branch of the remote.
pub proof fn law_failed_push_moves_no_branch(
    s: StoreModel,
    t: MemModel,
    remote: Seq<char>,
    branch: Seq<char>,
    force: bool,
)
    requires
        pushed::<MemTransport>(s, t, remote, branch, force).1 is Err,
    ensures
        pushed::<MemTransport>(s, t, remote, branch, force).0.endpoint.refs == t.endpoint.refs,
{
    if let Ok(all) = history_of(s, s.refs[(RefNs::Heads, branch)]) {
        lemma_put_lists_origin(
            t,
            objects_of(s, all),
            crate::remote::lists_of(s, all),
            0,
            s.refs[(RefNs::Heads, branch)],
        );
    }
}

/// Does a repository hold its commits under their own ids?
pub open spec fn addressed(s: StoreModel) -> bool {
    forall|c: Seq<u8>| #[trigger]
        s.commits.dom().contains(c) ==> crate::commit::commit_id(s.commits[c]) == c
}

/// Is a repository as another but for the objects that it holds?
pub open spec fn same_but_objects(s: StoreModel, t: StoreModel) -> bool {
    t == (StoreModel {
        commits: t.commits,
        snapshots: t.snapshots,
        snap_index: t.snap_index,
        ..s
    })
}

proof fn lemma_stored_verified(s: StoreModel, objects: Seq<ObjectModel>, i: int)
    requires
        0 <= i <= objects.len(),
    ensures
        same_but_objects(s, crate::remote::store_from(s, objects, i).0),
        addressed(s) ==> addressed(crate::remote::store_from(s, objects, i).0),
    decreases objects.len() - i,
{
    reveal(crate::remote::object_stored);
    if i < objects.len() {
        let (next, out) = crate::remote::object_stored(s, objects[i].0, objects[i].1);
        if out is Ok {
            lemma_stored_verified(next, objects, i + 1);
        }
    }
}

proof fn lemma_got_verified<T: RemoteTransport>(
    s: StoreModel,
    t: T::State,
    ids: Seq<SourceModel>,
    i: int,
)
    requires
        0 <= i <= ids.len(),
    ensures
        same_but_objects(s, crate::remote::get_from::<T>(s, t, ids, i).0),
        addressed(s) ==> addressed(crate::remote::get_from::<T>(s, t, ids, i).0),
    decreases ids.len() - i,
{
    if i < ids.len() {
        let j = crate::remote::batch_end(i, ids.len());
        let (u, out) = T::batch_said(t, ids.subrange(i, j));
        if let Ok(objects) = out {
            lemma_stored_verified(s, objects, 0);
            let (next, put) = crate::remote::store_from(s, objects, 0);
            if put is Ok {
                lemma_got_verified::<T>(next, u, ids, j);
            }
        }
    }
}

/// Getting what a tip needs brings objects alone, each verified against its id,
/// whatever the remote answers.
proof fn lemma_closure_verified<T: RemoteTransport>(s: StoreModel, t: T::State, tip: Seq<u8>)
    ensures
        same_but_objects(s, crate::remote::closure_fetched::<T>(s, t, tip).0),
        addressed(s) ==> addressed(crate::remote::closure_fetched::<T>(s, t, tip).0),
{
    reveal(crate::remote::closure_fetched);
    let (u, out) = T::walk_said(t, tip);
    if let Ok(ids) = out {
        lemma_got_verified::<T>(s, u, ids.filter(|id: SourceModel| !holds(s, id)), 0);
    }
}

/// A fetch brings objects and, where it goes well, the tip of the branch that it is
/// for; a fetch that fails notes no tip. Whatever a remote answers, commits are stored
/// under their own ids alone.
pub proof fn law_fetch_verifies_first<T: RemoteTransport>(
    s: StoreModel,
    t: T::State,
    remote: Seq<char>,
    branch: Seq<char>,
)
    ensures
        ({
            let (after, u, out) = fetched::<T>(s, t, remote, branch);
            &&& out is Err ==> same_but_objects(s, after)
            &&& out is Ok ==> exists|tip: Seq<u8>|
                same_but_objects(
                    StoreModel { tracking: #[trigger] s.tracking.insert((remote, branch), tip), ..s },
                    after,
                )
            &&& addressed(s) ==> addressed(after)
        }),
{
    let (u, found) = T::branch_said(t, branch);
    if let Ok(Some(tip)) = found {
        lemma_closure_verified::<T>(s, u, tip);
        let (next, v, out) = crate::remote::closure_fetched::<T>(s, u, tip);
        let noted = StoreModel { tracking: s.tracking.insert((remote, branch), tip), ..s };
        if crate::remote::url_of(s, remote) is Some && out is Ok {
            assert(same_but_objects(noted, fetched::<T>(s, t, remote, branch).0));
        }
    }
}

// ---------------------------------------------------------------------------
// Clones
// ---------------------------------------------------------------------------

/// Has every branch of a table a name of its own?
pub open spec fn distinct_names(b: Seq<(Seq<char>, Seq<u8>)>) -> bool {
    forall|i: int, j: int| 0 <= i < j < b.len() ==> (#[trigger] b[i]).0 != (#[trigger] b[j]).0
}

proof fn lemma_insert_distinct(b: Seq<(Seq<char>, Seq<u8>)>, e: (Seq<char>, Seq<u8>))
    requires
        distinct_names(b),
        !crate::remote_wire::has_branch(b, e.0),
    ensures
        distinct_names(crate::remote_wire::insert_branch(b, e)),
    decreases b.len(),
{
    let r = crate::remote_wire::insert_branch(b, e);
    if b.len() == 0 || crate::text::text_lt(b.last().0, e.0) {
        assert forall|i: int, j: int| 0 <= i < j < r.len() implies (#[trigger] r[i]).0 != (
        #[trigger] r[j]).0 by {
            assert(b[i] == r[i]);
            if j < b.len() {
                assert(b[j] == r[j]);
            }
        }
    } else {
        let d = b.drop_last();
        let last = b[b.len() - 1];
        assert forall|i: int, j: int| 0 <= i < j < d.len() implies (#[trigger] d[i]).0 != (
        #[trigger] d[j]).0 by {
            assert(b[i] == d[i] && b[j] == d[j]);
        }
        if crate::remote_wire::has_branch(d, e.0) {
            let i = choose|i: int| 0 <= i < d.len() && (#[trigger] d[i]).0 == e.0;
            assert(b[i].0 == e.0);
        }
        lemma_insert_distinct(d, e);
        crate::remote_wire::lemma_insert_branch_members(d, e);
        let inner = crate::remote_wire::insert_branch(d, e);
        assert(last.0 != e.0);
        assert forall|i: int, j: int| 0 <= i < j < r.len() implies (#[trigger] r[i]).0 != (
        #[trigger] r[j]).0 by {
            assert(inner[i] == r[i]);
            if j < inner.len() {
                assert(inner[j] == r[j]);
            } else if inner[i] != e {
                let q = choose|q: int| 0 <= q < d.len() && d[q] == inner[i];
                assert(b[q] == inner[i]);
                assert(b[q].0 != last.0);
            }
        }
    }
}

proof fn lemma_sorted_distinct(b: Seq<(Seq<char>, Seq<u8>)>)
    ensures
        distinct_names(crate::remote_wire::sorted_branches(b)),
    decreases b.len(),
{
    if b.len() > 0 {
        lemma_sorted_distinct(b.drop_last());
        let before = crate::remote_wire::sorted_branches(b.drop_last());
        if !crate::remote_wire::has_branch(before, b.last().0) {
            lemma_insert_distinct(before, b.last());
        }
    }
}

/// What a clone has of a branch that it took over.
pub open spec fn has_cloned(s: StoreModel, name: Seq<char>, tip: Seq<u8>) -> bool {
    &&& s.refs.dom().contains((RefNs::Heads, name))
    &&& s.refs[(RefNs::Heads, name)] == tip
    &&& s.branches.contains(name)
    &&& s.tracking.dom().contains(("origin"@, name))
    &&& s.tracking[("origin"@, name)] == tip
}

/// Taking over the other branches leaves a branch as it was.
proof fn lemma_clone_keeps<T: RemoteTransport>(
    s: StoreModel,
    t: T::State,
    branches: Seq<(Seq<char>, Seq<u8>)>,
    lazy: bool,
    i: int,
    name: Seq<char>,
    tip: Seq<u8>,
)
    requires
        0 <= i <= branches.len(),
        has_cloned(s, name, tip),
        forall|k: int| i <= k < branches.len() ==> (#[trigger] branches[k]).0 != name,
    ensures
        has_cloned(crate::remote::clone_from::<T>(s, t, branches, lazy, i).0, name, tip),
    decreases branches.len() - i,
{
    if i < branches.len() {
        let (other, at) = branches[i];
        assert(other != name);
        if lazy {
            let (next, u, out) = crate::remote::catalog_noted::<T>(s, t, at);
            if out is Ok {
                lemma_clone_keeps::<T>(
                    crate::remote::branch_cloned(next, other, at),
                    u,
                    branches,
                    lazy,
                    i + 1,
                    name,
                    tip,
                );
            }
        } else {
            lemma_closure_verified::<T>(s, t, at);
            let (next, u, out) = crate::remote::closure_fetched::<T>(s, t, at);
            if out is Ok {
                lemma_clone_keeps::<T>(
                    crate::remote::branch_cloned(next, other, at),
                    u,
                    branches,
                    lazy,
                    i + 1,
                    name,
                    tip,
                );
            }
        }
    }
}

proof fn lemma_clone_takes<T: RemoteTransport>(
    s: StoreModel,
    t: T::State,
    branches: Seq<(Seq<char>, Seq<u8>)>,
    lazy: bool,
    i: int,
    k: int,
)
    requires
        0 <= i <= k < branches.len(),
        distinct_names(branches),
        crate::remote::clone_from::<T>(s, t, branches, lazy, i).2 is Ok,
    ensures
        has_cloned(
            crate::remote::clone_from::<T>(s, t, branches, lazy, i).0,
            branches[k].0,
            branches[k].1,
        ),
    decreases branches.len() - i,
{
    let (name, tip) = branches[i];
    let (next, u, out) = if lazy {
        crate::remote::catalog_noted::<T>(s, t, tip)
    } else {
        crate::remote::closure_fetched::<T>(s, t, tip)
    };
    let now = crate::remote::branch_cloned(next, name, tip);
    if i == k {
        lemma_clone_keeps::<T>(now, u, branches, lazy, i + 1, name, tip);
    } else {
        lemma_clone_takes::<T>(now, u, branches, lazy, i + 1, k);
    }
}

/// A clone that goes well, lazy or not, has every branch that the remote named, at the
/// remote's tip, and the remote as its origin.
pub proof fn law_clone_takes_every_branch<T: RemoteTransport>(
    s: StoreModel,
    t: T::State,
    url: Seq<char>,
    lazy: bool,
    refs: crate::remote_wire::RefsModel,
    k: int,
)
    requires
        cloned_from::<T>(s, t, url, lazy).2 is Ok,
        T::refs_said(t).1 matches Ok(blob) && crate::remote_wire::read_refs(blob) == Some(refs),
        distinct_names(refs.branches),
        0 <= k < refs.branches.len(),
    ensures
        ({
            let after = cloned_from::<T>(s, t, url, lazy).0;
            &&& has_cloned(after, refs.branches[k].0, refs.branches[k].1)
            &&& after.head == refs.default_branch
            &&& crate::remote::url_of(after, "origin"@) == Some(url)
        }),
{
    let u = T::refs_said(t).0;
    lemma_clone_takes::<T>(s, u, refs.branches, lazy, 0, k);
    lemma_clone_remotes::<T>(s, u, refs.branches, lazy, 0);
    let next = crate::remote::clone_from::<T>(s, u, refs.branches, lazy, 0).0;
    assert(next.remotes =~= seq![]);
    let one = next.remotes.push(("origin"@, url));
    assert(one.drop_last() =~= seq![]);
    reveal_with_fuel(crate::remote::remote_at, 2);
}

proof fn lemma_clone_remotes<T: RemoteTransport>(
    s: StoreModel,
    t: T::State,
    branches: Seq<(Seq<char>, Seq<u8>)>,
    lazy: bool,
    i: int,
)
    requires
        0 <= i <= branches.len(),
    ensures
        crate::remote::clone_from::<T>(s, t, branches, lazy, i).0.remotes == s.remotes,
    decreases branches.len() - i,
{
    if i < branches.len() {
        let (name, tip) = branches[i];
        if lazy {
            let (next, u, out) = crate::remote::catalog_noted::<T>(s, t, tip);
            lemma_clone_remotes::<T>(
                crate::remote::branch_cloned(next, name, tip),
                u,
                branches,
                lazy,
                i + 1,
            );
        } else {
            lemma_closure_verified::<T>(s, t, tip);
            let (next, u, out) = crate::remote::closure_fetched::<T>(s, t, tip);
            lemma_clone_remotes::<T>(
                crate::remote::branch_cloned(next, name, tip),
                u,
                branches,
                lazy,
                i + 1,
            );
        }
    }
}

/// Has the catalog of a tip what a remote named for it?
pub open spec fn walk_noted<T: RemoteTransport>(s: StoreModel, tip: Seq<u8>) -> bool {
    s.lazy_catalog.dom().contains(tip) && exists|u: T::State|
        (#[trigger] T::walk_said(u, tip)).1 == Ok::<Seq<SourceModel>, Fault>(s.lazy_catalog[tip])
}

proof fn lemma_clone_notes<T: RemoteTransport>(
    s: StoreModel,
    t: T::State,
    branches: Seq<(Seq<char>, Seq<u8>)>,
    i: int,
    tip: Seq<u8>,
)
    requires
        0 <= i <= branches.len(),
        walk_noted::<T>(s, tip) || exists|k: int|
            i <= k < branches.len() && (#[trigger] branches[k]).1 == tip,
        crate::remote::clone_from::<T>(s, t, branches, true, i).2 is Ok,
    ensures
        walk_noted::<T>(crate::remote::clone_from::<T>(s, t, branches, true, i).0, tip),
    decreases branches.len() - i,
{
    if i < branches.len() {
        let (name, at) = branches[i];
        let (next, u, out) = crate::remote::catalog_noted::<T>(s, t, at);
        let now = crate::remote::branch_cloned(next, name, at);
        if at == tip {
            assert(T::walk_said(t, tip).1 == Ok::<Seq<SourceModel>, Fault>(now.lazy_catalog[tip]));
        } else if !walk_noted::<T>(s, tip) {
            let k = choose|k: int| i <= k < branches.len() && (#[trigger] branches[k]).1 == tip;
            assert(i + 1 <= k < branches.len() && branches[k].1 == tip);
        }
        lemma_clone_notes::<T>(now, u, branches, i + 1, tip);
    }
}

/// A lazy clone that goes well knows its origin and, for every branch that the remote
/// named, which objects the tip needs, as the remote's walk gave them.
pub proof fn law_lazy_clone_notes_walks<T: RemoteTransport>(
    s: StoreModel,
    t: T::State,
    url: Seq<char>,
    refs: crate::remote_wire::RefsModel,
    k: int,
)
    requires
        cloned_from::<T>(s, t, url, true).2 is Ok,
        T::refs_said(t).1 matches Ok(blob) && crate::remote_wire::read_refs(blob) == Some(refs),
        0 <= k < refs.branches.len(),
    ensures
        ({
            let after = cloned_from::<T>(s, t, url, true).0;
            &&& after.lazy_origin == Some(url)
            &&& walk_noted::<T>(after, refs.branches[k].1)
        }),
{
    let u = T::refs_said(t).0;
    assert(refs.branches[k].1 == refs.branches[k].1);
    lemma_clone_notes::<T>(s, u, refs.branches, 0, refs.branches[k].1);
}

/// Has a repository a commit as the remote has it, where it has it?
spec fn commit_as_there(s: StoreModel, u: MemModel, c: Seq<u8>) -> bool {
    s.commits.dom().contains(c) ==> s.commits[c] == commit_there(u.endpoint.objects, c)
}

/// Does a remote list a snapshot for a commit that a tip reaches?
spec fn needed(u: MemModel, tip: Seq<u8>, c: Seq<u8>, y: Seq<u8>) -> bool {
    &&& crate::reach::reaches(
        crate::remote_transport::object_links(u.endpoint.objects),
        set![tip],
        c,
    )
    &&& u.endpoint.snap_lists.dom().contains(c)
    &&& u.endpoint.snap_lists[c].contains(y)
}

/// Getting what a tip needs from a remote in memory.
proof fn lemma_closure_got(s: StoreModel, u: MemModel, tip: Seq<u8>, c: Seq<u8>, y: Seq<u8>)
    requires
        u.endpoint.objects.dom().finite(),
    ensures
        ({
            let (t, v, out) = crate::remote::closure_fetched::<MemTransport>(s, u, tip);
            &&& v == u
            &&& commit_as_there(s, u, c) ==> commit_as_there(t, u, c)
            &&& s.commits.dom().contains(c) ==> t.commits.dom().contains(c)
            &&& holds(s, SourceModel::Snapshot(y)) ==> holds(t, SourceModel::Snapshot(y))
            &&& out is Ok && crate::reach::reaches(
                crate::remote_transport::object_links(u.endpoint.objects),
                set![tip],
                c,
            ) ==> t.commits.dom().contains(c)
            &&& out is Ok && needed(u, tip, c, y) ==> holds(t, SourceModel::Snapshot(y))
        }),
{
    reveal(crate::remote::closure_fetched);
    let o = u.endpoint.objects;
    if let Ok(ids) = MemTransport::walk_said(u, tip).1 {
        let missing = ids.filter(|id: SourceModel| !holds(s, id));
        lemma_get_from(s, u, missing, 0, SourceModel::Snapshot(y), c);
        lemma_get_from(s, u, missing, 0, SourceModel::Commit(c), c);
        if crate::reach::reaches(crate::remote_transport::object_links(o), set![tip], c) {
            lemma_closure_ids(o, u.endpoint.snap_lists, tip, ids, c);
            lemma_missing(s, ids, SourceModel::Commit(c));
            if needed(u, tip, c, y) {
                lemma_missing(s, ids, SourceModel::Snapshot(y));
            }
        }
    }
}

proof fn lemma_closure_table(
    s: StoreModel,
    u: MemModel,
    tip: Seq<u8>,
    c: Seq<u8>,
    table: Seq<char>,
    id: SourceModel,
    want: SnapModel,
)
    requires
        id is Snapshot,
        sole_record(u.endpoint.objects, c, table, id),
        read_record(u.endpoint.objects[id]) == Some((c, table, want)),
        as_held(s, c, table, id, want),
    ensures
        as_held(
            crate::remote::closure_fetched::<MemTransport>(s, u, tip).0,
            c,
            table,
            id,
            want,
        ),
{
    reveal(crate::remote::closure_fetched);
    if let Ok(ids) = MemTransport::walk_said(u, tip).1 {
        let missing = ids.filter(|x: SourceModel| !holds(s, x));
        lemma_get_table(s, u, missing, 0, c, table, id, want);
    }
}

/// Taking over branches from a remote in memory brings what their tips need.
proof fn lemma_clone_got(
    s: StoreModel,
    u: MemModel,
    branches: Seq<(Seq<char>, Seq<u8>)>,
    i: int,
    k: int,
    c: Seq<u8>,
    y: Seq<u8>,
)
    requires
        0 <= i <= branches.len(),
        k < branches.len(),
        u.endpoint.objects.dom().finite(),
        crate::remote::clone_from::<MemTransport>(s, u, branches, false, i).2 is Ok,
    ensures
        ({
            let t = crate::remote::clone_from::<MemTransport>(s, u, branches, false, i).0;
            &&& commit_as_there(s, u, c) ==> commit_as_there(t, u, c)
            &&& s.commits.dom().contains(c) ==> t.commits.dom().contains(c)
            &&& holds(s, SourceModel::Snapshot(y)) ==> holds(t, SourceModel::Snapshot(y))
            &&& i <= k && crate::reach::reaches(
                crate::remote_transport::object_links(u.endpoint.objects),
                set![branches[k].1],
                c,
            ) ==> t.commits.dom().contains(c)
            &&& i <= k && needed(u, branches[k].1, c, y) ==> holds(t, SourceModel::Snapshot(y))
        }),
    decreases branches.len() - i,
{
    if i < branches.len() {
        let (name, tip) = branches[i];
        lemma_closure_got(s, u, tip, c, y);
        let (next, v, out) = crate::remote::closure_fetched::<MemTransport>(s, u, tip);
        let now = crate::remote::branch_cloned(next, name, tip);
        lemma_clone_got(now, u, branches, i + 1, k, c, y);
    }
}

proof fn lemma_clone_table(
    s: StoreModel,
    u: MemModel,
    branches: Seq<(Seq<char>, Seq<u8>)>,
    i: int,
    c: Seq<u8>,
    table: Seq<char>,
    id: SourceModel,
    want: SnapModel,
)
    requires
        0 <= i <= branches.len(),
        u.endpoint.objects.dom().finite(),
        crate::remote::clone_from::<MemTransport>(s, u, branches, false, i).2 is Ok,
        id is Snapshot,
        sole_record(u.endpoint.objects, c, table, id),
        read_record(u.endpoint.objects[id]) == Some((c, table, want)),
        as_held(s, c, table, id, want),
    ensures
        as_held(
            crate::remote::clone_from::<MemTransport>(s, u, branches, false, i).0,
            c,
            table,
            id,
            want,
        ),
    decreases branches.len() - i,
{
    if i < branches.len() {
        let (name, tip) = branches[i];
        lemma_closure_got(s, u, tip, c, seq![]);
        lemma_closure_table(s, u, tip, c, table, id, want);
        let (next, v, out) = crate::remote::closure_fetched::<MemTransport>(s, u, tip);
        let now = crate::remote::branch_cloned(next, name, tip);
        lemma_clone_table(now, u, branches, i + 1, c, table, id, want);
    }
}

/// After a push the remote names the branch at the tip, once.
proof fn lemma_pushed_named(
    s: StoreModel,
    t: MemModel,
    remote: Seq<char>,
    branch: Seq<char>,
    force: bool,
    all: Seq<Seq<u8>>,
) -> (k: int)
    requires
        pushed_well(s, t, remote, branch, force, all),
    ensures
        ({
            let u = pushed::<MemTransport>(s, t, remote, branch, force).0;
            let b = crate::remote_wire::sorted_branches(u.endpoint.refs.branches);
            &&& MemTransport::refs_said(u).0 == u
            &&& MemTransport::refs_said(u).1 matches Ok(blob) && crate::remote_wire::read_refs(
                blob,
            ) == Some(crate::remote_wire::RefsModel { branches: b, ..u.endpoint.refs })
            &&& distinct_names(b)
            &&& 0 <= k < b.len() && b[k] == (branch, s.refs[(RefNs::Heads, branch)])
        }),
{
    let tip = s.refs[(RefNs::Heads, branch)];
    let u = pushed::<MemTransport>(s, t, remote, branch, force).0;
    let b = crate::remote_wire::sorted_branches(u.endpoint.refs.branches);
    lemma_history(s, tip, all);
    lemma_pushed_history(s, t, remote, branch, force, all, tip);
    law_push_delivers(s, t, remote, branch, force, all, tip);
    crate::remote_wire::law_refs_roundtrip(u.endpoint.refs);
    lemma_sorted_distinct(u.endpoint.refs.branches);
    lemma_tip_of_sorted(u.endpoint.refs.branches, branch);
    crate::remote_transport::lemma_branch_at(b, branch);
    crate::remote_transport::branch_at(b, branch)->0
}

/// A clone of a remote to which a branch was pushed has, when both went well, the branch
/// at its tip and every commit of its history as the other repository has it.
pub proof fn law_clone_gets_what_was_pushed(
    s: StoreModel,
    t: MemModel,
    remote: Seq<char>,
    branch: Seq<char>,
    force: bool,
    all: Seq<Seq<u8>>,
    other: StoreModel,
    url: Seq<char>,
    c: Seq<u8>,
)
    requires
        pushed_well(s, t, remote, branch, force, all),
        cloned_from::<MemTransport>(
            other,
            pushed::<MemTransport>(s, t, remote, branch, force).0,
            url,
            false,
        ).2 is Ok,
        other.commits.dom().finite(),
        all.contains(c),
    ensures
        ({
            let u = pushed::<MemTransport>(s, t, remote, branch, force).0;
            let after = cloned_from::<MemTransport>(other, u, url, false).0;
            &&& has_cloned(after, branch, s.refs[(RefNs::Heads, branch)])
            &&& after.commits.dom().contains(c)
            &&& after.commits[c] == s.commits[c]
        }),
{
    let u = pushed::<MemTransport>(s, t, remote, branch, force).0;
    let b = crate::remote_wire::sorted_branches(u.endpoint.refs.branches);
    let k = lemma_pushed_named(s, t, remote, branch, force, all);
    lemma_clone_takes::<MemTransport>(other, u, b, false, 0, k);
    lemma_pushed_history(s, t, remote, branch, force, all, c);
    assert(!other.commits.dom().contains(c));
    lemma_clone_got(other, u, b, 0, k, c, seq![]);
}

/// A lazy clone of a remote in memory that is then materialised, when both go well, is
/// no longer lazy and holds all that the remote has of the history of every branch: the
/// commits that a tip reaches and the snapshots listed for them.
pub proof fn law_lazy_clone_materialises(
    s: StoreModel,
    u: MemModel,
    url: Seq<char>,
    refs: crate::remote_wire::RefsModel,
    tips: Seq<Seq<u8>>,
    b: int,
    c: Seq<u8>,
    y: Seq<u8>,
)
    requires
        u.endpoint.objects.dom().finite(),
        cloned_from::<MemTransport>(s, u, url, true).2 is Ok,
        MemTransport::refs_said(u).1 matches Ok(blob) && crate::remote_wire::read_refs(blob)
            == Some(refs),
        distinct_names(refs.branches),
        0 <= b < refs.branches.len(),
        crate::source::are_tips(cloned_from::<MemTransport>(s, u, url, true).0, tips),
        crate::source::materialized::<OriginSource<MemTransport>>(
            cloned_from::<MemTransport>(s, u, url, true).0,
            u,
            tips,
        ).2 is Ok,
        crate::reach::reaches(
            crate::remote_transport::object_links(u.endpoint.objects),
            set![refs.branches[b].1],
            c,
        ),
    ensures
        ({
            let after = crate::source::materialized::<OriginSource<MemTransport>>(
                cloned_from::<MemTransport>(s, u, url, true).0,
                u,
                tips,
            ).0;
            &&& after.lazy_origin is None
            &&& after.commits.dom().contains(c)
            &&& u.endpoint.snap_lists.dom().contains(c) && u.endpoint.snap_lists[c].contains(y)
                ==> holds(after, SourceModel::Snapshot(y))
        }),
{
    let tip = refs.branches[b].1;
    let lazy = cloned_from::<MemTransport>(s, u, url, true).0;
    law_clone_takes_every_branch::<MemTransport>(s, u, url, true, refs, b);
    lemma_memory_notes(s, u, refs.branches, 0, tip);
    let ids = lazy.lazy_catalog[tip];
    assert(refs.branches[b].1 == tip);
    assert(tips.contains(tip));
    lemma_closure_ids(u.endpoint.objects, u.endpoint.snap_lists, tip, ids, c);
    assert(crate::source::needed_of(lazy, tip) == ids);
    crate::source::law_materialized_holds_everything::<OriginSource<MemTransport>>(
        lazy,
        u,
        tips,
        tip,
        SourceModel::Commit(c),
    );
    if u.endpoint.snap_lists.dom().contains(c) && u.endpoint.snap_lists[c].contains(y) {
        crate::source::law_materialized_holds_everything::<OriginSource<MemTransport>>(
            lazy,
            u,
            tips,
            tip,
            SourceModel::Snapshot(y),
        );
    }
}

/// A lazy clone of a remote in memory notes what the remote's walk gives.
proof fn lemma_memory_notes(
    s: StoreModel,
    u: MemModel,
    branches: Seq<(Seq<char>, Seq<u8>)>,
    i: int,
    tip: Seq<u8>,
)
    requires
        0 <= i <= branches.len(),
        crate::remote::clone_from::<MemTransport>(s, u, branches, true, i).2 is Ok,
    ensures
        ({
            let t = crate::remote::clone_from::<MemTransport>(s, u, branches, true, i).0;
            (exists|k: int| i <= k < branches.len() && (#[trigger] branches[k]).1 == tip) || (
            s.lazy_catalog.dom().contains(tip) && MemTransport::walk_said(u, tip).1 == Ok::<
                Seq<SourceModel>,
                Fault,
            >(s.lazy_catalog[tip])) ==> t.lazy_catalog.dom().contains(tip)
                && MemTransport::walk_said(u, tip).1 == Ok::<Seq<SourceModel>, Fault>(
                t.lazy_catalog[tip],
            )
        }),
    decreases branches.len() - i,
{
    if i < branches.len() {
        let (name, at) = branches[i];
        let (next, v, out) = crate::remote::catalog_noted::<MemTransport>(s, u, at);
        lemma_memory_notes(
            crate::remote::branch_cloned(next, name, at),
            u,
            branches,
            i + 1,
            tip,
        );
        if exists|k: int| i <= k < branches.len() && (#[trigger] branches[k]).1 == tip {
            let k = choose|k: int| i <= k < branches.len() && (#[trigger] branches[k]).1 == tip;
            if k > i {
                assert(i + 1 <= k < branches.len() && branches[k].1 == tip);
            }
        }
    }
}

/// A clone of a remote to which a branch was pushed has, when both went well, the tables
/// of its history as the other repository has them, with their rows in canonical order.
pub proof fn law_clone_gets_tables(
    s: StoreModel,
    t: MemModel,
    remote: Seq<char>,
    branch: Seq<char>,
    force: bool,
    all: Seq<Seq<u8>>,
    other: StoreModel,
    url: Seq<char>,
    c: Seq<u8>,
    table: Seq<char>,
)
    requires
        pushed_well(s, t, remote, branch, force, all),
        cloned_from::<MemTransport>(
            other,
            pushed::<MemTransport>(s, t, remote, branch, force).0,
            url,
            false,
        ).2 is Ok,
        tables_fit(s, all),
        all.contains(c),
        s.snapshots.dom().contains(c),
        s.snapshots[c].dom().contains(table),
        table_alike(s, t, all, c, table),
        !holds(other, crate::remote::snap_object(c, table, s.snapshots[c][table]).0),
    ensures
        ({
            let u = pushed::<MemTransport>(s, t, remote, branch, force).0;
            table_is(
                cloned_from::<MemTransport>(other, u, url, false).0,
                c,
                table,
                crate::remote_wire::canonical(s.snapshots[c][table]),
            )
        }),
{
    let u = pushed::<MemTransport>(s, t, remote, branch, force).0;
    let b = crate::remote_wire::sorted_branches(u.endpoint.refs.branches);
    let snap = s.snapshots[c][table];
    let y = crate::remote_wire::record_id(c, table, snap);
    let id = SourceModel::Snapshot(y);
    let want = crate::remote_wire::canonical(snap);
    let k = lemma_pushed_named(s, t, remote, branch, force, all);
    lemma_pushed_history(s, t, remote, branch, force, all, c);
    lemma_pushed_table(s, t, remote, branch, force, all, c, table);
    lemma_pushed_listed(s, t, remote, branch, force, all, c, table);
    crate::remote_wire::law_record_roundtrip(c, table, snap);
    lemma_clone_got(other, u, b, 0, k, c, y);
    lemma_clone_table(other, u, b, 0, c, table, id, want);
}

/// Can a remote tell what each of its branches needs, and does it hold it?
pub open spec fn complete_remote(ep: EndpointModel) -> bool {
    forall|k: int|
        0 <= k < ep.refs.branches.len() ==> (crate::remote_transport::closure_ids(
            ep.objects,
            ep.snap_lists,
            (#[trigger] ep.refs.branches[k]).1,
        ) matches Ok(ids) && forall|i: int|
            0 <= i < ids.len() ==> ep.objects.dom().contains(#[trigger] ids[i]))
}

/// What a tip needed and the remote held can be told and is held after a push that left
/// the remote sound.
proof fn lemma_still_held(
    s: StoreModel,
    t: MemModel,
    all: Seq<Seq<u8>>,
    tip: Seq<u8>,
)
    requires
        t.endpoint.objects.dom().finite(),
        crate::remote_transport::closure_ids(
            t.endpoint.objects,
            t.endpoint.snap_lists,
            tip,
        ) is Ok,
        ({
            let u = crate::remote::put_from::<MemTransport>(
                t,
                objects_of(s, all),
                crate::remote::lists_of(s, all),
                0,
            ).0;
            u.endpoint.objects.dom().finite() && sound_remote(u.endpoint)
        }),
    ensures
        ({
            let u = crate::remote::put_from::<MemTransport>(
                t,
                objects_of(s, all),
                crate::remote::lists_of(s, all),
                0,
            ).0;
            crate::remote_transport::closure_ids(
                u.endpoint.objects,
                u.endpoint.snap_lists,
                tip,
            ) matches Ok(ids) && forall|i: int|
                0 <= i < ids.len() ==> u.endpoint.objects.dom().contains(#[trigger] ids[i])
        }),
{
    let objects = objects_of(s, all);
    let told = crate::remote::lists_of(s, all);
    let u = crate::remote::put_from::<MemTransport>(t, objects, told, 0).0;
    let before = t.endpoint.objects;
    let o = u.endpoint.objects;
    let lists = u.endpoint.snap_lists;
    let read = crate::remote_transport::readings(before);
    let links = crate::remote_transport::object_links(before);
    crate::remote_transport::lemma_readings_finite(before);
    crate::walk::law_walk_sees_the_history(read, crate::remote_transport::lost_commit(), tip);
    let seen = crate::walk::history(read, crate::remote_transport::lost_commit(), tip)->Ok_0;
    crate::reach::lemma_root_reached(links, set![tip], tip);
    assert forall|a: Seq<u8>| #[trigger] seen.contains(a) implies crate::walk::readable(
        crate::remote_transport::readings(o),
        a,
    ) && o.dom().contains(SourceModel::Commit(a)) && crate::reach::targets(
        crate::remote_transport::object_links(o),
        a,
    ) == crate::reach::targets(links, a) by {
        assert(crate::walk::readable(read, a));
        lemma_put_origin(t, objects, told, 0, SourceModel::Commit(a));
    }
    assert forall|a: Seq<u8>, b: Seq<u8>|
        seen.contains(a) && #[trigger] crate::reach::targets(
            crate::remote_transport::object_links(o),
            a,
        ).contains(b) implies seen.contains(b) by {
        crate::reach::lemma_target_reached(links, set![tip], a, b);
    }
    lemma_closure_told(o, lists, tip, seen);
    let ids = crate::remote_transport::closure_ids(o, lists, tip)->Ok_0;
    assert forall|k: int| 0 <= k < ids.len() implies o.dom().contains(#[trigger] ids[k]) by {
        match ids[k] {
            SourceId::Commit(c) => {
                assert(seen.contains(c));
            },
            SourceId::Snapshot(y) => {
                let c = choose|c: Seq<u8>| #[trigger]
                    seen.contains(c) && lists.dom().contains(c) && lists[c].contains(y);
                assert(lists[c].contains(y));
            },
        }
    }
}

/// A new remote is sound and complete.
pub proof fn law_new_remote_is_sound_and_complete(default_branch: Seq<char>, auth_required: bool)
    ensures
        sound_remote(crate::remote_transport::empty_endpoint(default_branch, auth_required)),
        complete_remote(crate::remote_transport::empty_endpoint(default_branch, auth_required)),
{
}

/// A push that goes well to a sound and complete remote leaves it complete.
pub proof fn law_push_keeps_remote_complete(
    s: StoreModel,
    t: MemModel,
    remote: Seq<char>,
    branch: Seq<char>,
    force: bool,
    all: Seq<Seq<u8>>,
)
    requires
        pushed_well(s, t, remote, branch, force, all),
        sound_remote(t.endpoint),
        complete_remote(t.endpoint),
        t.endpoint.objects.dom().finite(),
        tables_fit(s, all),
    ensures
        complete_remote(pushed::<MemTransport>(s, t, remote, branch, force).0.endpoint),
{
    let tip = s.refs[(RefNs::Heads, branch)];
    let (u, _) = pushed::<MemTransport>(s, t, remote, branch, force);
    let objects = objects_of(s, all);
    let lists = crate::remote::lists_of(s, all);
    let put = crate::remote::put_from::<MemTransport>(t, objects, lists, 0).0;
    lemma_put_lists_origin(t, objects, lists, 0, tip);
    law_push_keeps_remote_sound(s, t, remote, branch, force);
    lemma_put_sound(s, t, all);
    lemma_pushed_closure(s, t, remote, branch, force, all);
    assert(u.endpoint == (EndpointModel {
        refs: crate::remote_transport::branch_moved(t.endpoint.refs, branch, tip),
        ..put.endpoint
    }));
    let b = u.endpoint.refs.branches;
    let own = t.endpoint.refs.branches;
    crate::remote_transport::lemma_branch_at(own, branch);
    assert forall|k: int| 0 <= k < b.len() implies (crate::remote_transport::closure_ids(
        u.endpoint.objects,
        u.endpoint.snap_lists,
        (#[trigger] b[k]).1,
    ) matches Ok(ids) && forall|i: int|
        0 <= i < ids.len() ==> u.endpoint.objects.dom().contains(#[trigger] ids[i])) by {
        if b[k] != (branch, tip) {
            assert(b[k] == own[k]);
            lemma_still_held(s, t, all, own[k].1);
        }
    }
}

proof fn lemma_clone_answers(
    s: StoreModel,
    u: MemModel,
    branches: Seq<(Seq<char>, Seq<u8>)>,
    i: int,
)
    requires
        0 <= i <= branches.len(),
        sound_remote(u.endpoint),
        !u.endpoint.auth_required || u.kid is Some,
        complete_remote(u.endpoint),
        forall|k: int|
            0 <= k < branches.len() ==> u.endpoint.refs.branches.contains(#[trigger] branches[k]),
    ensures
        crate::remote::clone_from::<MemTransport>(s, u, branches, false, i).2 is Ok,
    decreases branches.len() - i,
{
    if i < branches.len() {
        let (name, tip) = branches[i];
        let own = u.endpoint.refs.branches;
        let k = choose|k: int| 0 <= k < own.len() && own[k] == branches[i];
        let ids = crate::remote_transport::closure_ids(
            u.endpoint.objects,
            u.endpoint.snap_lists,
            own[k].1,
        )->Ok_0;
        lemma_closure_answers(u, tip, ids, s);
        let next = crate::remote::closure_fetched::<MemTransport>(s, u, tip).0;
        lemma_clone_answers(
            crate::remote::branch_cloned(next, name, tip),
            u,
            branches,
            i + 1,
        );
    }
}

/// A sound and complete remote can be cloned into a fresh repository by a caller that it
/// lets in.
pub proof fn law_sound_remote_can_be_cloned(u: MemModel, other: StoreModel, url: Seq<char>)
    requires
        sound_remote(u.endpoint),
        complete_remote(u.endpoint),
        !u.endpoint.auth_required || u.kid is Some,
        crate::remote_wire::refs_fit(u.endpoint.refs),
        crate::remote::is_fresh(other),
    ensures
        cloned_from::<MemTransport>(other, u, url, false).2 is Ok,
{
    let b = crate::remote_wire::sorted_branches(u.endpoint.refs.branches);
    crate::remote_wire::law_refs_roundtrip(u.endpoint.refs);
    crate::remote_wire::lemma_sorted_branches_members(u.endpoint.refs.branches);
    lemma_clone_answers(other, u, b, 0);
}

/// A sound remote gives a caller that it lets in the objects that it holds.
pub proof fn law_sound_remote_gives(u: MemModel)
    requires
        sound_remote(u.endpoint),
        !u.endpoint.auth_required || u.kid is Some,
    ensures
        crate::source::gives::<OriginSource<MemTransport>>(u, u.endpoint.objects.dom()),
{
    let objects = u.endpoint.objects;
    assert forall|ids: Seq<SourceModel>| ids.to_set().subset_of(objects.dom()) implies ({
        let (v, out) = #[trigger] OriginSource::<MemTransport>::many_said(u, ids);
        &&& v == u
        &&& out matches Ok(got) && got.len() == ids.len() && forall|k: int|
            0 <= k < ids.len() ==> ((#[trigger] got[k]) matches Some(bytes)
                && crate::remote_wire::verified(ids[k], bytes) is Ok)
    }) by {
        assert forall|k: int| 0 <= k < ids.len() implies objects.dom().contains(
            #[trigger] ids[k],
        ) by {
            assert(ids.to_set().contains(ids[k]));
        }
        lemma_found_all(objects, ids, 0, seq![]);
        lemma_found_from(objects, ids, 0, seq![]);
    }
}

/// A lazy clone of a remote in memory that can tell what its branches need goes well. A
/// commit that is no tip of the remote is a tip afterwards only where it was one before,
/// and then with the catalog that it had.
proof fn lemma_lazy_clone_answers(
    s: StoreModel,
    u: MemModel,
    branches: Seq<(Seq<char>, Seq<u8>)>,
    i: int,
    x: Seq<u8>,
)
    requires
        0 <= i <= branches.len(),
        !u.endpoint.auth_required || u.kid is Some,
        complete_remote(u.endpoint),
        forall|k: int|
            0 <= k < branches.len() ==> u.endpoint.refs.branches.contains(#[trigger] branches[k]),
    ensures
        ({
            let (t, v, out) = crate::remote::clone_from::<MemTransport>(s, u, branches, true, i);
            &&& v == u && out is Ok
            &&& t.commits == s.commits && t.snap_index == s.snap_index
            &&& (forall|k: int| i <= k < branches.len() ==> (#[trigger] branches[k]).1 != x) ==> {
                &&& crate::source::is_tip(t, x) ==> crate::source::is_tip(s, x)
                &&& crate::source::needed_of(t, x) == crate::source::needed_of(s, x)
            }
        }),
    decreases branches.len() - i,
{
    if i < branches.len() {
        let (name, tip) = branches[i];
        let own = u.endpoint.refs.branches;
        let k = choose|k: int| 0 <= k < own.len() && own[k] == branches[i];
        assert(crate::remote_transport::closure_ids(
            u.endpoint.objects,
            u.endpoint.snap_lists,
            own[k].1,
        ) is Ok);
        let next = crate::remote::catalog_noted::<MemTransport>(s, u, tip).0;
        let now = crate::remote::branch_cloned(next, name, tip);
        lemma_lazy_clone_answers(now, u, branches, i + 1, x);
        if tip != x && crate::source::is_tip(now, x) {
            if exists|n: Seq<char>| #[trigger]
                now.refs.dom().contains((RefNs::Heads, n)) && now.refs[(RefNs::Heads, n)] == x {
                let n = choose|n: Seq<char>| #[trigger]
                    now.refs.dom().contains((RefNs::Heads, n)) && now.refs[(RefNs::Heads, n)] == x;
                assert(s.refs.dom().contains((RefNs::Heads, n)));
            } else if exists|n: Seq<char>| #[trigger]
                now.refs.dom().contains((RefNs::Tags, n)) && now.refs[(RefNs::Tags, n)] == x {
                let n = choose|n: Seq<char>| #[trigger]
                    now.refs.dom().contains((RefNs::Tags, n)) && now.refs[(RefNs::Tags, n)] == x;
                assert(s.refs.dom().contains((RefNs::Tags, n)));
            } else {
                let n = choose|n: (Seq<char>, Seq<char>)| #[trigger]
                    now.tracking.dom().contains(n) && now.tracking[n] == x;
                assert(s.tracking.dom().contains(n));
            }
            assert(crate::source::is_tip(s, x));
        }
    }
}

/// A complete remote holds what a branch needs.
proof fn lemma_branch_held(ep: EndpointModel, k: int, ids: Seq<SourceModel>, x: SourceModel)
    requires
        complete_remote(ep),
        0 <= k < ep.refs.branches.len(),
        crate::remote_transport::closure_ids(
            ep.objects,
            ep.snap_lists,
            ep.refs.branches[k].1,
        ) == Ok::<Seq<SourceModel>, Fault>(ids),
        ids.contains(x),
    ensures
        ep.objects.dom().contains(x),
{
    let found = crate::remote_transport::closure_ids(
        ep.objects,
        ep.snap_lists,
        ep.refs.branches[k].1,
    )->Ok_0;
    let i = choose|i: int| 0 <= i < found.len() && found[i] == x;
    assert(ep.objects.dom().contains(found[i]));
}

/// Can all that the tips of a repository need be had from a remote?
pub open spec fn tips_can_be_had(s: StoreModel, ep: EndpointModel) -> bool {
    forall|tip: Seq<u8>, x: SourceModel|
        #![trigger crate::source::is_tip(s, tip), crate::source::needed_of(s, tip).contains(x)]
        crate::source::is_tip(s, tip) && crate::source::needed_of(s, tip).contains(x) ==> holds(
            s,
            x,
        ) || ep.objects.dom().contains(x)
}

/// A fresh repository can be a lazy clone of a sound and complete remote that lets the
/// caller in, and the clone can be materialised: both go well, and then the clone is no
/// longer lazy and holds the history of every branch that the remote names, with the
/// snapshots listed for it. Tips that the repository has before it is cloned into have to
/// be had from the remote as well; a new one has none.
pub proof fn law_lazy_clone_can_be_materialised(
    s: StoreModel,
    u: MemModel,
    url: Seq<char>,
    tips: Seq<Seq<u8>>,
    b: int,
    c: Seq<u8>,
    y: Seq<u8>,
)
    requires
        sound_remote(u.endpoint),
        complete_remote(u.endpoint),
        u.endpoint.objects.dom().finite(),
        !u.endpoint.auth_required || u.kid is Some,
        crate::remote_wire::refs_fit(u.endpoint.refs),
        crate::remote::is_fresh(s),
        tips_can_be_had(s, u.endpoint),
        crate::source::are_tips(cloned_from::<MemTransport>(s, u, url, true).0, tips),
    ensures
        ({
            let (lazy, v, out) = cloned_from::<MemTransport>(s, u, url, true);
            let (after, w, done) = crate::source::materialized::<OriginSource<MemTransport>>(
                lazy,
                v,
                tips,
            );
            let named = crate::remote_wire::sorted_branches(u.endpoint.refs.branches);
            &&& out is Ok && lazy.lazy_origin == Some(url)
            &&& done is Ok && after.lazy_origin is None
            &&& v == u && w == u
            &&& 0 <= b < named.len() && crate::reach::reaches(
                crate::remote_transport::object_links(u.endpoint.objects),
                set![named[b].1],
                c,
            ) ==> {
                &&& after.commits.dom().contains(c)
                &&& u.endpoint.snap_lists.dom().contains(c) && u.endpoint.snap_lists[c].contains(y)
                    ==> holds(after, SourceModel::Snapshot(y))
            }
        }),
{
    let own = u.endpoint.refs.branches;
    let named = crate::remote_wire::sorted_branches(own);
    let objects = u.endpoint.objects.dom();
    let lazy = cloned_from::<MemTransport>(s, u, url, true).0;
    crate::remote_wire::law_refs_roundtrip(u.endpoint.refs);
    crate::remote_wire::lemma_sorted_branches_members(own);
    lemma_sorted_distinct(own);
    lemma_lazy_clone_answers(s, u, named, 0, seq![]);
    let cloned = crate::remote::clone_from::<MemTransport>(s, u, named, true, 0).0;
    assert forall|tip: Seq<u8>, x: SourceModel|
        #![trigger tips.contains(tip), crate::source::needed_of(lazy, tip).contains(x)]
        tips.contains(tip) && crate::source::needed_of(lazy, tip).contains(x) implies holds(lazy, x)
        || objects.contains(x) by {
        assert(crate::source::is_tip(lazy, tip));
        assert(crate::source::is_tip(cloned, tip));
        assert(crate::source::needed_of(cloned, tip) == crate::source::needed_of(lazy, tip));
        lemma_lazy_clone_answers(s, u, named, 0, tip);
        if exists|k: int| 0 <= k < named.len() && (#[trigger] named[k]).1 == tip {
            let k = choose|k: int| 0 <= k < named.len() && (#[trigger] named[k]).1 == tip;
            lemma_memory_notes(s, u, named, 0, tip);
            let ids = cloned.lazy_catalog[tip];
            assert(own.contains(named[k]));
            let j = choose|j: int| 0 <= j < own.len() && own[j] == named[k];
            assert(named[k].1 == tip);
            lemma_branch_held(u.endpoint, j, ids, x);
        } else {
            assert(crate::source::is_tip(s, tip));
            assert(crate::source::needed_of(s, tip).contains(x));
        }
    }
    law_sound_remote_gives(u);
    crate::source::law_materialising_goes_well::<OriginSource<MemTransport>>(
        lazy,
        u,
        tips,
        objects,
    );
    if 0 <= b < named.len() && crate::reach::reaches(
        crate::remote_transport::object_links(u.endpoint.objects),
        set![named[b].1],
        c,
    ) {
        let refs = crate::remote_wire::RefsModel { branches: named, ..u.endpoint.refs };
        law_lazy_clone_materialises(s, u, url, refs, tips, b, c, y);
    }
}

/// A pull brings the tip that the remote named and keeps the local history: where the
/// branch was there before, its earlier tip is in the history of its new tip. The branch
/// moves forward to the remote's tip exactly where nothing of it would be lost; otherwise
/// the two are merged, and a merge that commits has the earlier tip and the remote's as its
/// parents.
pub proof fn law_pull_keeps_the_local_history<T: RemoteTransport>(
    s: StoreModel,
    t: T::State,
    remote: Seq<char>,
    branch: Seq<char>,
    tip: Seq<u8>,
    out: crate::remote::PullOutcome<crate::replay::ResultModel>,
)
    requires
        crate::remote::pulled::<T>(s, t, remote, branch).2 == Ok::<
            crate::remote::PullOutcome<crate::replay::ResultModel>,
            Fault,
        >(out),
        T::branch_said(t, branch).1 == Ok::<Option<Seq<u8>>, Fault>(Some(tip)),
    ensures
        ({
            let after = crate::remote::pulled::<T>(s, t, remote, branch).0;
            let at = (RefNs::Heads, branch);
            let old = s.refs[at];
            let had = s.refs.dom().contains(at);
            &&& after.tracking == s.tracking.insert((remote, branch), tip)
            &&& after.refs.dom().contains(at)
            &&& had ==> crate::remote::in_history(after, old, after.refs[at])
            &&& out is UpToDate <==> had && old == tip
            &&& out is FastForwarded ==> {
                &&& after.refs[at] == tip
                &&& had ==> old != tip && crate::remote::in_history(after, old, tip)
            }
            &&& out matches crate::remote::PullOutcome::Merged(r) ==> {
                &&& had && s.detached is None && s.head == branch
                &&& !(r is Committed) ==> after.refs == s.refs
                &&& !remote.contains('/') ==> (r matches crate::replay::MergeResult::Committed(id)
                    ==> {
                    &&& after.refs[at] == id
                    &&& after.commits[id].parents == seq![old, tip]
                })
            }
        }),
{
    let u = T::branch_said(t, branch).0;
    lemma_closure_verified::<T>(s, u, tip);
    let next = fetched::<T>(s, t, remote, branch).0;
    crate::remote::law_catching_up_keeps_the_local_history(next, remote, branch, out);
    crate::remote::lemma_catching_up_keeps_tracking(next, remote, branch);
}

} // verus!
