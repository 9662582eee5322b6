//! Garbage collection: what no root reaches is removed.

use vstd::prelude::*;

use crate::assoc::{AssocMap, AssocSet};
use crate::commit::{CommitStore, MemCommitStore};
use crate::model::{ChunkHash, CommitId, VersionError, VersionResult};
use crate::reach::{reachable, Links};
use crate::refs::{RefName, RefNs, RefStore};
use crate::remote_wire::Snapshots;
use crate::staging::{IndexModel, SnapIndex, StoreModel, VcStore};
use crate::text::{cat3, decimal_text, Dup};

verus! {

/// What one collection removed and kept.
#[derive(Debug, Clone, Copy, PartialEq, Eq, Structural)]
pub struct GcStats {
    pub removed: usize,
    pub kept: usize,
}

impl Default for GcStats {
    fn default() -> (r: Self)
        ensures
            r == (GcStats { removed: 0, kept: 0 }),
    {
        GcStats { removed: 0, kept: 0 }
    }
}

impl GcStats {
    /// The report of a collection.
    pub fn summary(&self) -> (r: String)
        ensures
            r@ == crate::text::decimal(self.removed as nat) + " chunks removed, "@
                + crate::text::decimal(self.kept as nat) + " chunks kept"@,
    {
        let removed = decimal_text(self.removed as u64);
        let kept = decimal_text(self.kept as u64);
        let head = cat3(removed.as_str(), " chunks removed, ", kept.as_str());
        crate::text::cat2(head.as_str(), " chunks kept")
    }
}

// ---------------------------------------------------------------------------
// Chunks
// ---------------------------------------------------------------------------

/// The chunks of a store, their references and the roots.
pub struct GcSnapshot {
    pub all_chunks: AssocSet<ChunkHash>,
    pub refs: AssocMap<ChunkHash, Vec<ChunkHash>>,
    /// What each commit refers to: its parents and contents.
    pub commit_refs: AssocMap<ChunkHash, Vec<ChunkHash>>,
    pub working_sets: Vec<Vec<ChunkHash>>,
}

/// What a picture of the chunks stands for.
pub struct GcModel {
    pub all_chunks: Set<Seq<u8>>,
    pub refs: Map<Seq<u8>, Seq<Seq<u8>>>,
    pub commit_refs: Map<Seq<u8>, Seq<Seq<u8>>>,
    pub working_sets: Seq<Seq<Seq<u8>>>,
}

impl DeepView for GcSnapshot {
    type V = GcModel;

    open spec fn deep_view(&self) -> GcModel {
        GcModel {
            all_chunks: self.all_chunks.deep_view(),
            refs: self.refs.deep_view(),
            commit_refs: self.commit_refs.deep_view(),
            working_sets: self.working_sets.deep_view(),
        }
    }
}

/// The references of chunks and of commits together.
pub open spec fn chunk_links(m: GcModel) -> Map<Seq<u8>, Seq<Seq<u8>>> {
    Map::new(
        |x: Seq<u8>| m.refs.dom().contains(x) || m.commit_refs.dom().contains(x),
        |x: Seq<u8>| crate::reach::targets(m.refs, x) + crate::reach::targets(m.commit_refs, x),
    )
}

/// The roots: what the working sets name.
pub open spec fn chunk_roots(m: GcModel) -> Set<Seq<u8>> {
    Set::new(
        |x: Seq<u8>|
            exists|i: int| 0 <= i < m.working_sets.len() && (#[trigger] m.working_sets[i]).contains(x),
    )
}

/// The chunks that a working set reaches.
pub open spec fn live_chunks(m: GcModel) -> Set<Seq<u8>> {
    Set::new(|x: Seq<u8>| crate::reach::reaches(chunk_links(m), chunk_roots(m), x))
}

fn add_targets(
    out: &mut Vec<ChunkHash>,
    refs: &AssocMap<ChunkHash, Vec<ChunkHash>>,
    x: &ChunkHash,
)
    ensures
        final(out).deep_view() == old(out).deep_view() + crate::reach::targets(
            refs.deep_view(),
            x.deep_view(),
        ),
{
    let ghost start = out.deep_view();
    match refs.get(x) {
        None => {
            assert(start + seq![] =~= start);
        },
        Some(list) => {
            let ghost l = list.deep_view();
            let mut i: usize = 0;
            assert(start + l.take(0) =~= start);
            while i < list.len()
                invariant
                    i <= list@.len(),
                    l == list.deep_view(),
                    out.deep_view() == start + l.take(i as int),
                decreases list.len() - i,
            {
                let ghost before = out.deep_view();
                out.push(list[i]);
                proof {
                    assert(l[i as int] == list@[i as int].deep_view());
                    assert(out.deep_view() =~= before.push(l[i as int]));
                    assert(out.deep_view() =~= start + l.take(i + 1));
                }
                i = i + 1;
            }
            assert(l.take(i as int) =~= l);
        },
    }
}

impl Links<ChunkHash> for GcSnapshot {
    open spec fn links(&self) -> Map<Seq<u8>, Seq<Seq<u8>>> {
        chunk_links(self.deep_view())
    }

    proof fn links_finite(&self) {
        self.refs.lemma_finite();
        self.commit_refs.lemma_finite();
        let m = self.deep_view();
        assert(self.links().dom() =~= m.refs.dom().union(m.commit_refs.dom()));
    }

    fn follow(&self, x: &ChunkHash) -> (r: Vec<ChunkHash>) {
        let mut out: Vec<ChunkHash> = Vec::new();
        add_targets(&mut out, &self.refs, x);
        add_targets(&mut out, &self.commit_refs, x);
        assert(out.deep_view() =~= crate::reach::targets(self.links(), x.deep_view()));
        out
    }
}

/// The chunks that the working sets reach, along the references of chunks and of
/// commits. A chunk that only an unreached commit refers to is not among them.
pub fn mark(snapshot: &GcSnapshot) -> (r: AssocSet<ChunkHash>)
    ensures
        r.wf(),
        r.deep_view() == live_chunks(snapshot.deep_view()),
{
    let ghost m = snapshot.deep_view();
    let ghost w = m.working_sets;
    let mut roots: Vec<ChunkHash> = Vec::new();
    let mut i: usize = 0;
    while i < snapshot.working_sets.len()
        invariant
            i <= snapshot.working_sets@.len(),
            w == snapshot.working_sets.deep_view(),
            forall|x: Seq<u8>| #[trigger]
                roots.deep_view().contains(x) <==> exists|k: int|
                    0 <= k < i && (#[trigger] w[k]).contains(x),
        decreases snapshot.working_sets.len() - i,
    {
        let set = &snapshot.working_sets[i];
        let ghost l = set.deep_view();
        assert(w[i as int] == l);
        let ghost start = roots.deep_view();
        let mut j: usize = 0;
        assert(start + l.take(0) =~= start);
        while j < set.len()
            invariant
                j <= set@.len(),
                l == set.deep_view(),
                roots.deep_view() == start + l.take(j as int),
            decreases set.len() - j,
        {
            let ghost before = roots.deep_view();
            roots.push(set[j]);
            proof {
                assert(l[j as int] == set@[j as int].deep_view());
                assert(roots.deep_view() =~= before.push(l[j as int]));
                assert(roots.deep_view() =~= start + l.take(j + 1));
            }
            j = j + 1;
        }
        proof {
            assert(l.take(j as int) =~= l);
            let after = roots.deep_view();
            assert forall|x: Seq<u8>| #[trigger] after.contains(x) <==> exists|k: int|
                0 <= k < i + 1 && (#[trigger] w[k]).contains(x) by {
                if after.contains(x) {
                    let k = choose|k: int| 0 <= k < after.len() && after[k] == x;
                    if k < start.len() {
                        assert(start[k] == x);
                        assert(start.contains(x));
                    } else {
                        assert(l[k - start.len()] == x);
                        assert(w[i as int].contains(x));
                    }
                }
                if start.contains(x) {
                    let k = choose|k: int| 0 <= k < start.len() && start[k] == x;
                    assert(after[k] == x);
                }
                if w[i as int].contains(x) {
                    let k = choose|k: int| 0 <= k < l.len() && l[k] == x;
                    assert(after[start.len() + k] == x);
                }
            }
        }
        i = i + 1;
    }
    assert(roots.deep_view().to_set() =~= chunk_roots(m));
    let live = reachable(snapshot, roots);
    assert(live.deep_view() =~= live_chunks(m));
    live
}

/// The chunks that are not live.
pub fn sweep(snapshot: &GcSnapshot, live: &AssocSet<ChunkHash>) -> (r: Vec<ChunkHash>)
    requires
        snapshot.all_chunks.wf(),
    ensures
        r.deep_view().no_duplicates(),
        r.deep_view().to_set() == snapshot.deep_view().all_chunks.difference(live.deep_view()),
{
    let ghost all = snapshot.all_chunks.items.deep_view();
    let mut out: Vec<ChunkHash> = Vec::new();
    let mut i: usize = 0;
    while i < snapshot.all_chunks.items.len()
        invariant
            i <= snapshot.all_chunks.items@.len(),
            all == snapshot.all_chunks.items.deep_view(),
            all.no_duplicates(),
            out.deep_view().no_duplicates(),
            forall|x: Seq<u8>| #[trigger]
                out.deep_view().contains(x) <==> all.take(i as int).contains(x)
                    && !live.deep_view().contains(x),
        decreases snapshot.all_chunks.items.len() - i,
    {
        let ghost before = out.deep_view();
        let ghost x = all[i as int];
        assert(x == snapshot.all_chunks.items@[i as int].deep_view());
        let dead = !live.contains(&snapshot.all_chunks.items[i]);
        if dead {
            out.push(snapshot.all_chunks.items[i]);
            assert(out.deep_view() =~= before.push(x));
        }
        proof {
            let a = all.take(i as int);
            let b = all.take(i + 1);
            assert(b =~= a.push(x));
            assert(!a.contains(x)) by {
                if a.contains(x) {
                    let k = choose|k: int| 0 <= k < a.len() && a[k] == x;
                    assert(all[k] == all[i as int]);
                }
            }
            let after = out.deep_view();
            assert forall|y: Seq<u8>| #[trigger] after.contains(y) <==> b.contains(y)
                && !live.deep_view().contains(y) by {
                if a.contains(y) {
                    let k = choose|k: int| 0 <= k < a.len() && a[k] == y;
                    assert(b[k] == y);
                }
                assert(b[i as int] == x);
                if before.contains(y) {
                    let k = choose|k: int| 0 <= k < before.len() && before[k] == y;
                    assert(after[k] == y);
                }
                if dead {
                    assert(after[before.len() as int] == x);
                }
            }
            if before.contains(x) {
                assert(a.contains(x));
            }
        }
        i = i + 1;
    }
    assert(all.take(i as int) =~= all);
    assert(out.deep_view().to_set() =~= snapshot.deep_view().all_chunks.difference(
        live.deep_view(),
    ));
    out
}

// ---------------------------------------------------------------------------
// Repositories
// ---------------------------------------------------------------------------

/// Does a branch, a tag, a remote tip or the detached head name a commit?
pub open spec fn is_root(s: StoreModel, x: Seq<u8>) -> bool {
    ||| exists|n: Seq<char>| #[trigger]
        s.refs.dom().contains((RefNs::Heads, n)) && s.refs[(RefNs::Heads, n)] == x
    ||| exists|n: Seq<char>| #[trigger]
        s.refs.dom().contains((RefNs::Tags, n)) && s.refs[(RefNs::Tags, n)] == x
    ||| exists|k: (Seq<char>, Seq<char>)| #[trigger]
        s.tracking.dom().contains(k) && s.tracking[k] == x
    ||| s.detached == Some(x)
}

/// The roots of a repository.
pub open spec fn commit_roots(s: StoreModel) -> Set<Seq<u8>> {
    Set::new(|x: Seq<u8>| is_root(s, x))
}

/// The commits that the roots of a repository reach.
pub open spec fn live_ids(s: StoreModel) -> Set<Seq<u8>> {
    Set::new(
        |x: Seq<u8>| crate::reach::reaches(crate::commit::parent_links(s.commits), commit_roots(s), x),
    )
}

/// The entries of the index whose owner still has snapshots.
pub open spec fn indexed(index: IndexModel, owners: Set<Seq<u8>>) -> IndexModel {
    index.restrict(
        Set::new(|k: Seq<u8>| index.dom().contains(k) && owners.contains(index[k].0)),
    )
}

/// A repository without what no root reaches.
pub open spec fn collected(s: StoreModel) -> StoreModel {
    let live = live_ids(s);
    let snapshots = s.snapshots.restrict(live);
    StoreModel {
        commits: s.commits.restrict(live),
        snapshots,
        snap_index: indexed(s.snap_index, snapshots.dom()),
        ..s
    }
}

/// The sum of two counts, as far as a machine word goes.
pub open spec fn count_of(a: nat, b: nat) -> usize {
    if a + b > usize::MAX {
        usize::MAX
    } else {
        (a + b) as usize
    }
}

/// What a collection removes and keeps: commits and sets of snapshots.
pub open spec fn gc_stats(s: StoreModel) -> GcStats {
    let t = collected(s);
    GcStats {
        removed: count_of(
            (s.commits.dom().len() - t.commits.dom().len()) as nat,
            (s.snapshots.dom().len() - t.snapshots.dom().len()) as nat,
        ),
        kept: count_of(t.commits.dom().len(), t.snapshots.dom().len()),
    }
}

/// A collection needs a quiet repository: no transaction, no uncommitted work,
/// no open merge, rebase or conflict.
pub fn gc_exclusive(store: &VcStore) -> (r: VersionResult<()>)
    ensures
        r is Ok <==> crate::staging::quiet(store.deep_view()),
        r matches Err(e) ==> e is GcRequiresExclusiveAccess,
{
    if store.gc_quiet() {
        Ok(())
    } else {
        Err(VersionError::GcRequiresExclusiveAccess)
    }
}

impl Links<CommitId> for MemCommitStore {
    open spec fn links(&self) -> Map<Seq<u8>, Seq<Seq<u8>>> {
        crate::commit::parent_links(self.deep_view())
    }

    proof fn links_finite(&self) {
        self.commits.lemma_finite();
        assert(self.links().dom() =~= self.deep_view().dom());
    }

    fn follow(&self, x: &CommitId) -> (r: Vec<CommitId>) {
        match self.commits.get(x) {
            Some(c) => c.parents.dup(),
            None => {
                let r: Vec<CommitId> = Vec::new();
                assert(r.deep_view() =~= seq![]);
                r
            },
        }
    }
}

pub(crate) fn add_refs(out: &mut Vec<CommitId>, rows: &Vec<(RefName, CommitId)>)
    ensures
        final(out).deep_view() == old(out).deep_view() + crate::refs::ref_rows(rows@).map_values(
            |e: (Seq<char>, Seq<u8>)| e.1,
        ),
{
    let ghost start = out.deep_view();
    let ghost l = crate::refs::ref_rows(rows@).map_values(|e: (Seq<char>, Seq<u8>)| e.1);
    let mut i: usize = 0;
    assert(start + l.take(0) =~= start);
    while i < rows.len()
        invariant
            i <= rows@.len(),
            l == crate::refs::ref_rows(rows@).map_values(|e: (Seq<char>, Seq<u8>)| e.1),
            out.deep_view() == start + l.take(i as int),
        decreases rows.len() - i,
    {
        let ghost before = out.deep_view();
        out.push(rows[i].1);
        proof {
            assert(l[i as int] == rows@[i as int].1@);
            assert(out.deep_view() =~= before.push(l[i as int]));
            assert(out.deep_view() =~= start + l.take(i + 1));
        }
        i = i + 1;
    }
    assert(l.take(i as int) =~= l);
}

/// What a list of references names.
pub proof fn lemma_ref_rows(
    refs: Map<(RefNs, Seq<char>), Seq<u8>>,
    ns: RefNs,
    rows: Seq<(Seq<char>, Seq<u8>)>,
    x: Seq<u8>,
)
    requires
        crate::refs::lists_refs(refs, ns, rows),
    ensures
        rows.map_values(|e: (Seq<char>, Seq<u8>)| e.1).contains(x) <==> exists|n: Seq<char>| #[trigger]
            refs.dom().contains((ns, n)) && refs[(ns, n)] == x,
{
    let l = rows.map_values(|e: (Seq<char>, Seq<u8>)| e.1);
    if l.contains(x) {
        let k = choose|k: int| 0 <= k < l.len() && l[k] == x;
        assert(refs.dom().contains((ns, rows[k].0)));
    }
    if exists|n: Seq<char>| #[trigger] refs.dom().contains((ns, n)) && refs[(ns, n)] == x {
        let n = choose|n: Seq<char>| #[trigger]
            refs.dom().contains((ns, n)) && refs[(ns, n)] == x;
        let k = choose|k: int| 0 <= k < rows.len() && (#[trigger] rows[k]).0 == n;
        assert(l[k] == x);
    }
}

/// The commits that the roots of a repository name.
fn root_commits(store: &VcStore) -> (r: Vec<CommitId>)
    ensures
        r.deep_view().to_set() == commit_roots(store.deep_view()),
{
    let ghost s = store.deep_view();
    let mut roots: Vec<CommitId> = Vec::new();
    let heads = store.refs.list(RefNs::Heads);
    let tags = store.refs.list(RefNs::Tags);
    let ghost h = crate::refs::ref_rows(heads@).map_values(|e: (Seq<char>, Seq<u8>)| e.1);
    let ghost g = crate::refs::ref_rows(tags@).map_values(|e: (Seq<char>, Seq<u8>)| e.1);
    assert(roots.deep_view() =~= seq![]);
    add_refs(&mut roots, &heads);
    add_refs(&mut roots, &tags);
    let ghost named = roots.deep_view();
    let keys = store.tracking.keys();
    let ghost kl = keys.deep_view();
    let mut i: usize = 0;
    while i < keys.len()
        invariant
            i <= keys@.len(),
            s == store.deep_view(),
            kl == keys.deep_view(),
            kl.to_set() == s.tracking.dom(),
            roots.deep_view().len() == named.len() + i,
            forall|j: int| 0 <= j < named.len() ==> #[trigger] roots.deep_view()[j] == named[j],
            forall|j: int|
                0 <= j < i ==> #[trigger] roots.deep_view()[named.len() + j] == s.tracking[kl[j]],
        decreases keys.len() - i,
    {
        let ghost before = roots.deep_view();
        assert(kl[i as int] == keys@[i as int].deep_view());
        assert(kl.to_set().contains(kl[i as int]));
        match store.tracking.get(&keys[i]) {
            Some(id) => {
                roots.push(*id);
                assert(roots.deep_view() =~= before.push(s.tracking[kl[i as int]]));
            },
            None => {},
        }
        i = i + 1;
    }
    let ghost seen = roots.deep_view();
    match store.detached {
        Some(id) => {
            roots.push(id);
            assert(roots.deep_view() =~= seen.push(id@));
        },
        None => {},
    }
    proof {
        let all = roots.deep_view();
        assert forall|x: Seq<u8>| all.to_set().contains(x) <==> commit_roots(s).contains(x) by {
            lemma_ref_rows(s.refs, RefNs::Heads, crate::refs::ref_rows(heads@), x);
            lemma_ref_rows(s.refs, RefNs::Tags, crate::refs::ref_rows(tags@), x);
            assert(named =~= h + g);
            if all.contains(x) {
                let k = choose|k: int| 0 <= k < all.len() && all[k] == x;
                if k < h.len() {
                    assert(h[k] == x);
                    assert(h.contains(x));
                } else if k < named.len() {
                    assert(g[k - h.len()] == x);
                    assert(g.contains(x));
                } else if k < seen.len() {
                    let j = k - named.len();
                    assert(seen[named.len() + j] == s.tracking[kl[j]]);
                    assert(kl.to_set().contains(kl[j]));
                    assert(s.tracking.dom().contains(kl[j]));
                }
            }
            if h.contains(x) {
                let k = choose|k: int| 0 <= k < h.len() && h[k] == x;
                assert(named[k] == x);
                assert(all[k] == x);
            }
            if g.contains(x) {
                let k = choose|k: int| 0 <= k < g.len() && g[k] == x;
                assert(named[h.len() + k] == x);
                assert(all[h.len() + k] == x);
            }
            if exists|k: (Seq<char>, Seq<char>)| #[trigger]
                s.tracking.dom().contains(k) && s.tracking[k] == x {
                let k = choose|k: (Seq<char>, Seq<char>)| #[trigger]
                    s.tracking.dom().contains(k) && s.tracking[k] == x;
                assert(kl.to_set().contains(k));
                let j = choose|j: int| 0 <= j < kl.len() && kl[j] == k;
                assert(seen[named.len() + j] == x);
                assert(all[named.len() + j] == x);
            }
            if s.detached == Some(x) {
                assert(all[seen.len() as int] == x);
            }
        }
        assert(all.to_set() =~= commit_roots(s));
    }
    roots
}

/// The commits that the roots of a repository reach.
fn live_commits(store: &VcStore) -> (r: AssocSet<CommitId>)
    ensures
        r.wf(),
        r.deep_view() == live_ids(store.deep_view()),
{
    let roots = root_commits(store);
    let live = reachable(&store.commits, roots);
    assert(live.deep_view() =~= live_ids(store.deep_view()));
    live
}

/// Drop the entries of the index whose owner has no snapshots.
fn prune_index(index: &mut SnapIndex, snapshots: &Snapshots)
    ensures
        final(index).deep_view() == indexed(old(index).deep_view(), snapshots.deep_view().dom()),
{
    let ghost m = index.deep_view();
    let ghost owners = snapshots.deep_view().dom();
    let list = index.keys();
    let ghost l = list.deep_view();
    let mut i: usize = 0;
    while i < list.len()
        invariant
            i <= list@.len(),
            l == list.deep_view(),
            owners == snapshots.deep_view().dom(),
            forall|x: Seq<u8>| #[trigger]
                index.deep_view().dom().contains(x) ==> m.dom().contains(x) && index.deep_view()[x]
                    == m[x],
            forall|x: Seq<u8>| #[trigger]
                m.dom().contains(x) && owners.contains(m[x].0) ==> index.deep_view().dom().contains(
                    x,
                ),
            forall|j: int|
                0 <= j < i && index.deep_view().dom().contains(#[trigger] l[j])
                    ==> owners.contains(m[l[j]].0),
        decreases list.len() - i,
    {
        assert(l[i as int] == list@[i as int].deep_view());
        let gone = match index.get(&list[i]) {
            Some(e) => !snapshots.contains(&e.0),
            None => false,
        };
        if gone {
            index.remove(&list[i]);
        }
        i = i + 1;
    }
    proof {
        assert forall|x: Seq<u8>| #[trigger] index.deep_view().dom().contains(
            x,
        ) implies owners.contains(m[x].0) by {
            assert(l.to_set().contains(x));
            let j = choose|j: int| 0 <= j < l.len() && l[j] == x;
            assert(index.deep_view().dom().contains(l[j]));
        }
        assert(index.deep_view() =~= indexed(m, owners));
    }
}

fn add_counts(a: usize, b: usize) -> (r: usize)
    ensures
        r == count_of(a as nat, b as nat),
{
    a.saturating_add(b)
}

/// Remove what no root reaches: commits, their snapshots and the entries of the
/// index. Whether this may run now is for the caller to ask first.
pub fn collect_garbage(store: &mut VcStore) -> (r: GcStats)
    ensures
        final(store).deep_view() == collected(old(store).deep_view()),
        r == gc_stats(old(store).deep_view()),
{
    let ghost s = store.deep_view();
    let ghost t = collected(s);
    let live = live_commits(store);
    let commits = store.commits.commits.len();
    let snapshots = store.snapshots.len();
    store.commits.commits.keep(&live);
    store.snapshots.keep(&live);
    let left: usize = store.snapshots.len();
    proof {
        old(store).commits.commits.lemma_finite();
        old(store).snapshots.lemma_finite();
        vstd::set_lib::lemma_len_subset(t.commits.dom(), s.commits.dom());
        vstd::set_lib::lemma_len_subset(t.snapshots.dom(), s.snapshots.dom());
    }
    let kept = store.commits.commits.len();
    prune_index(&mut store.snap_index, &store.snapshots);
    GcStats { removed: add_counts(commits - kept, snapshots - left), kept: add_counts(kept, left) }
}

/// A collection that does nothing where the repository is not quiet.
pub fn gc_compact(store: &mut VcStore) -> (r: GcStats)
    ensures
        crate::staging::quiet(old(store).deep_view()) ==> {
            &&& final(store).deep_view() == collected(old(store).deep_view())
            &&& r == gc_stats(old(store).deep_view())
        },
        !crate::staging::quiet(old(store).deep_view()) ==> {
            &&& final(store).deep_view() == old(store).deep_view()
            &&& r == (GcStats { removed: 0, kept: 0 })
        },
{
    if !store.gc_quiet() {
        return GcStats { removed: 0, kept: 0 };
    }
    collect_garbage(store)
}

// ---------------------------------------------------------------------------
// Laws
// ---------------------------------------------------------------------------

/// A collection keeps every commit that a root names, and with a commit its
/// parents.
pub proof fn law_collection_keeps_history(s: StoreModel, x: Seq<u8>)
    requires
        s.commits.dom().contains(x),
    ensures
        is_root(s, x) ==> collected(s).commits.dom().contains(x),
        collected(s).commits.dom().contains(x) ==> {
            &&& collected(s).commits[x] == s.commits[x]
            &&& forall|p: Seq<u8>| #[trigger]
                s.commits[x].parents.contains(p) && s.commits.dom().contains(p)
                    ==> collected(s).commits.dom().contains(p)
        },
        collected(s).commits.dom().contains(x) ==> crate::remote_wire::tables_at(
            collected(s).snapshots,
            x,
        ) == crate::remote_wire::tables_at(s.snapshots, x),
{
    let links = crate::commit::parent_links(s.commits);
    let roots = commit_roots(s);
    if is_root(s, x) {
        crate::reach::lemma_root_reached(links, roots, x);
    }
    if collected(s).commits.dom().contains(x) {
        assert forall|p: Seq<u8>| #[trigger]
            s.commits[x].parents.contains(p) && s.commits.dom().contains(
                p,
            ) implies collected(s).commits.dom().contains(p) by {
            assert(crate::reach::targets(links, x).contains(p));
            crate::reach::lemma_target_reached(links, roots, x, p);
        }
    }
}

/// A collection removes every commit that no root reaches, with its snapshots,
/// and touches neither references nor working contents.
pub proof fn law_collection_removes_the_rest(s: StoreModel, x: Seq<u8>)
    requires
        !live_ids(s).contains(x),
    ensures
        !collected(s).commits.dom().contains(x),
        !collected(s).snapshots.dom().contains(x),
        collected(s).refs == s.refs,
        collected(s).work == s.work,
        collected(s).tracking == s.tracking,
{
}

/// A second collection finds nothing to remove.
pub proof fn law_collection_is_done_at_once(s: StoreModel)
    ensures
        collected(collected(s)) == collected(s),
{
    let t = collected(s);
    let links = crate::commit::parent_links(s.commits);
    let kept = crate::commit::parent_links(t.commits);
    let roots = commit_roots(s);
    assert(commit_roots(t) =~= roots);
    assert forall|a: Seq<u8>| crate::reach::reaches(
        links,
        roots,
        a,
    ) implies #[trigger] crate::reach::targets(kept, a) == crate::reach::targets(links, a) by {
        assert(live_ids(s).contains(a));
        assert(kept.dom().contains(a) == links.dom().contains(a));
    }
    assert forall|a: Seq<u8>, b: Seq<u8>| #[trigger]
        crate::reach::targets(kept, a).contains(b) implies crate::reach::targets(
        links,
        a,
    ).contains(b) by {
        assert(kept.dom().contains(a) ==> links.dom().contains(a));
    }
    assert forall|x: Seq<u8>| live_ids(t).contains(x) <==> live_ids(s).contains(x) by {
        crate::reach::lemma_reached_links_suffice(links, kept, roots, x);
    }
    assert(live_ids(t) =~= live_ids(s));
    assert(collected(t).commits =~= t.commits);
    assert(collected(t).snapshots =~= t.snapshots);
    assert(collected(t).snap_index =~= t.snap_index);
}

/// What a branch, a tag, a remote branch or the detached head names survives a collection.
pub proof fn law_named_commits_survive(
    s: StoreModel,
    name: (RefNs, Seq<char>),
    remote: (Seq<char>, Seq<char>),
)
    ensures
        ({
            let t = collected(s);
            &&& s.refs.dom().contains(name) && s.commits.dom().contains(s.refs[name])
                ==> t.commits.dom().contains(s.refs[name])
            &&& s.tracking.dom().contains(remote) && s.commits.dom().contains(s.tracking[remote])
                ==> t.commits.dom().contains(s.tracking[remote])
            &&& s.detached matches Some(d) ==> (s.commits.dom().contains(d)
                ==> t.commits.dom().contains(d))
            &&& t == (StoreModel {
                commits: t.commits,
                snapshots: t.snapshots,
                snap_index: t.snap_index,
                ..s
            })
        }),
{
    let links = crate::commit::parent_links(s.commits);
    let roots = commit_roots(s);
    if s.refs.dom().contains(name) {
        assert(s.refs.dom().contains((name.0, name.1)));
        if name.0 is Heads {
            assert(s.refs.dom().contains((RefNs::Heads, name.1)));
        } else {
            assert(s.refs.dom().contains((RefNs::Tags, name.1)));
        }
        crate::reach::lemma_root_reached(links, roots, s.refs[name]);
    }
    if s.tracking.dom().contains(remote) {
        crate::reach::lemma_root_reached(links, roots, s.tracking[remote]);
    }
    if let Some(d) = s.detached {
        crate::reach::lemma_root_reached(links, roots, d);
    }
}

/// Nothing survives a collection but what has to: any set of commits that holds all that is
/// named and the parents of each of its commits holds every commit that is left.
pub proof fn law_only_history_survives(s: StoreModel, keep: Set<Seq<u8>>, x: Seq<u8>)
    requires
        forall|n: (RefNs, Seq<char>)| #[trigger] s.refs.dom().contains(n) ==> keep.contains(s.refs[n]),
        forall|k: (Seq<char>, Seq<char>)| #[trigger]
            s.tracking.dom().contains(k) ==> keep.contains(s.tracking[k]),
        s.detached matches Some(d) ==> keep.contains(d),
        forall|c: Seq<u8>, p: Seq<u8>|
            keep.contains(c) && s.commits.dom().contains(c) && #[trigger] s.commits[c].parents.contains(
                p,
            ) ==> keep.contains(p),
        collected(s).commits.dom().contains(x) || collected(s).snapshots.dom().contains(x),
    ensures
        keep.contains(x),
{
    let links = crate::commit::parent_links(s.commits);
    let roots = commit_roots(s);
    assert(crate::reach::reaches(links, roots, x));
    let p = choose|p: Seq<Seq<u8>>| #[trigger]
        crate::reach::is_path(links, p) && roots.contains(p[0]) && p.last() == x;
    assert(is_root(s, p[0]));
    lemma_path_kept(s, keep, p, p.len() - 1);
}

proof fn lemma_path_kept(s: StoreModel, keep: Set<Seq<u8>>, p: Seq<Seq<u8>>, i: int)
    requires
        crate::reach::is_path(crate::commit::parent_links(s.commits), p),
        0 <= i < p.len(),
        keep.contains(p[0]),
        forall|c: Seq<u8>, q: Seq<u8>|
            keep.contains(c) && s.commits.dom().contains(c) && #[trigger] s.commits[c].parents.contains(
                q,
            ) ==> keep.contains(q),
    ensures
        keep.contains(p[i]),
    decreases i,
{
    if i > 0 {
        lemma_path_kept(s, keep, p, i - 1);
        let links = crate::commit::parent_links(s.commits);
        assert(crate::reach::targets(links, p[i - 1]).contains(p[i - 1 + 1]));
        assert(s.commits.dom().contains(p[i - 1]));
        assert(s.commits[p[i - 1]].parents.contains(p[i]));
    }
}

} // verus!
