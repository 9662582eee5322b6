//! Lazy sources: objects that a lazy clone did not copy are fetched when they are
//! missed.
//!
//! A source is asked only for what the repository lacks. Every object is checked
//! against its id before it is stored, and one batch is stored as a whole or not
//! at all.

use vstd::prelude::*;

use crate::model::{CommitId, VersionError, VersionResult};
use crate::refs::{RefNs, RefStore};
use crate::remote::Transfer;
use crate::remote_transport::{ObjectModel, RemoteTransport};
use crate::remote_wire::{verify_object, SourceId, SourceModel};
use crate::staging::{StoreModel, VcStore};
use crate::table_merge::Fault;
use crate::text::Dup;

verus! {

broadcast use crate::text::lemma_bytes_deep_view;

/// What a lazy repository can ask for. A source is in some state; what it answers,
/// and its state afterwards, follow from the state before and the question. That
/// binds every source, also one that leaves open how: where its answers come from
/// somewhere else, the state stands for what is there, and holds as long as nobody
/// else writes to it.
pub trait ChunkSource: Sized {
    type State;

    open spec fn state(&self) -> Self::State {
        arbitrary()
    }

    open spec fn one_said(s: Self::State, id: SourceModel) -> (Self::State, Result<Seq<u8>, Fault>) {
        arbitrary()
    }

    open spec fn many_said(s: Self::State, ids: Seq<SourceModel>) -> (
        Self::State,
        Result<Seq<Option<Seq<u8>>>, Fault>,
    ) {
        arbitrary()
    }

    /// One object by id.
    fn get(&mut self, id: SourceId) -> (r: VersionResult<Vec<u8>>)
        ensures
            Self::one_said(old(self).state(), id.deep_view()) == (
                final(self).state(),
                crate::model::outcome(r),
            ),
    ;

    /// Objects by id, none for one that is not there.
    fn get_many(&mut self, ids: &Vec<SourceId>) -> (r: VersionResult<Vec<Option<Vec<u8>>>>)
        ensures
            Self::many_said(old(self).state(), ids.deep_view()) == (
                final(self).state(),
                crate::model::outcome(r),
            ),
    ;
}

/// A source behind a transport: the origin of a lazy clone.
pub struct OriginSource<T> {
    pub transport: T,
}

impl<T: RemoteTransport> OriginSource<T> {
    pub fn new(transport: T) -> (r: Self)
        ensures
            r.transport == transport,
    {
        OriginSource { transport }
    }
}

impl<T: RemoteTransport> ChunkSource for OriginSource<T> {
    type State = T::State;

    open spec fn state(&self) -> T::State {
        self.transport.state()
    }

    open spec fn one_said(s: T::State, id: SourceModel) -> (T::State, Result<Seq<u8>, Fault>) {
        let (t, out) = T::batch_said(s, seq![id]);
        (
            t,
            match out {
                Err(e) => Err(e),
                Ok(objects) => if objects.len() == 0 {
                    Err(crate::remote_transport::lost_object(id))
                } else {
                    Ok(objects[0].1)
                },
            },
        )
    }

    open spec fn many_said(s: T::State, ids: Seq<SourceModel>) -> (
        T::State,
        Result<Seq<Option<Seq<u8>>>, Fault>,
    ) {
        let (t, out) = T::batch_said(s, ids);
        (
            t,
            match out {
                Err(e) => Err(e),
                Ok(objects) => Ok(objects.map_values(|o: ObjectModel| Some(o.1))),
            },
        )
    }

    fn get(&mut self, id: SourceId) -> (r: VersionResult<Vec<u8>>) {
        let mut ids: Vec<SourceId> = Vec::new();
        ids.push(id);
        assert(ids.deep_view() =~= seq![id.deep_view()]);
        match self.transport.get_batch(&ids) {
            Ok(objects) => {
                let ghost o = objects.deep_view();
                assert(o.len() == objects@.len());
                if objects.len() == 0 {
                    return Err(VersionError::ChunkNotFound(id.to_hex()));
                }
                assert(o[0] == objects@[0].deep_view());
                Ok(objects[0].1.dup())
            },
            Err(e) => Err(e),
        }
    }

    fn get_many(&mut self, ids: &Vec<SourceId>) -> (r: VersionResult<Vec<Option<Vec<u8>>>>) {
        match self.transport.get_batch(ids) {
            Ok(objects) => {
                let ghost o = objects.deep_view();
                let mut out: Vec<Option<Vec<u8>>> = Vec::new();
                let mut i: usize = 0;
                while i < objects.len()
                    invariant
                        i <= objects@.len(),
                        o == objects.deep_view(),
                        out@.len() == i,
                        forall|j: int|
                            0 <= j < i ==> (#[trigger] out@[j]).deep_view() == Some(o[j].1),
                    decreases objects.len() - i,
                {
                    assert(o[i as int] == objects@[i as int].deep_view());
                    out.push(Some(objects[i].1.dup()));
                    i = i + 1;
                }
                assert(out.deep_view() =~= o.map_values(|x: ObjectModel| Some(x.1)));
                Ok(out)
            },
            Err(e) => Err(e),
        }
    }
}

// ---------------------------------------------------------------------------
// Hydration
// ---------------------------------------------------------------------------

/// The objects that a tip needs: those of its catalog, or the tip itself where
/// there is no catalog.
pub open spec fn needed_of(s: StoreModel, tip: Seq<u8>) -> Seq<SourceModel> {
    if s.lazy_catalog.dom().contains(tip) {
        s.lazy_catalog[tip]
    } else {
        seq![SourceId::Commit(tip)]
    }
}

/// The objects that a tip still needs: those that the repository lacks.
pub open spec fn missing_of(s: StoreModel, tip: Seq<u8>) -> Seq<SourceModel> {
    needed_of(s, tip).filter(|id: SourceModel| !crate::remote::holds(s, id))
}

/// Check a batch from place `i` on, behind what is checked: every object has to be
/// there and to be the one its id names. An answer that ends early lacks the rest.
pub open spec fn checked_from(
    ids: Seq<SourceModel>,
    got: Seq<Option<Seq<u8>>>,
    i: int,
    done: Seq<ObjectModel>,
) -> Result<Seq<ObjectModel>, Fault>
    decreases ids.len() - i,
{
    if i >= ids.len() {
        Ok(done)
    } else if i >= got.len() {
        Err(crate::remote_transport::lost_object(ids[i]))
    } else {
        match got[i] {
            None => Err(crate::remote_transport::lost_object(ids[i])),
            Some(bytes) => match crate::remote_wire::verified(ids[i], bytes) {
                Err(e) => Err(e),
                Ok(_) => checked_from(ids, got, i + 1, done.push((ids[i], bytes))),
            },
        }
    }
}

/// Get, check and store the objects from place `i` on, in batches.
pub open spec fn hydrate_from<S: ChunkSource>(
    s: StoreModel,
    t: S::State,
    ids: Seq<SourceModel>,
    i: int,
) -> Transfer<S::State>
    decreases ids.len() - i,
{
    if i >= ids.len() {
        (s, t, Ok(()))
    } else {
        let j = crate::remote::batch_end(i, ids.len());
        let (u, out) = S::many_said(t, ids.subrange(i, j));
        match out {
            Err(e) => (s, u, Err(e)),
            Ok(got) => match checked_from(ids.subrange(i, j), got, 0, seq![]) {
                Err(e) => (s, u, Err(e)),
                Ok(objects) => {
                    let (next, put) = crate::remote::store_from(s, objects, 0);
                    match put {
                        Err(e) => (next, u, Err(e)),
                        Ok(_) => hydrate_from::<S>(next, u, ids, j),
                    }
                },
            },
        }
    }
}

/// Bring what a tip needs into the repository.
#[verifier::opaque]
pub open spec fn hydrated<S: ChunkSource>(s: StoreModel, t: S::State, tip: Seq<u8>) -> Transfer<
    S::State,
> {
    hydrate_from::<S>(s, t, missing_of(s, tip), 0)
}

/// Bring what a tip needs into a repository that is lazy.
pub open spec fn lazily_hydrated<S: ChunkSource>(s: StoreModel, t: S::State, tip: Seq<u8>) -> Transfer<
    S::State,
> {
    if s.lazy_origin is None {
        (s, t, Ok(()))
    } else {
        hydrated::<S>(s, t, tip)
    }
}

/// Bring in what the tips from place `i` on need.
pub open spec fn tips_from<S: ChunkSource>(
    s: StoreModel,
    t: S::State,
    tips: Seq<Seq<u8>>,
    i: int,
) -> Transfer<S::State>
    decreases tips.len() - i,
{
    if i >= tips.len() {
        (s, t, Ok(()))
    } else {
        let (next, u, out) = lazily_hydrated::<S>(s, t, tips[i]);
        match out {
            Err(e) => (next, u, Err(e)),
            Ok(_) => tips_from::<S>(next, u, tips, i + 1),
        }
    }
}

/// Bring in what all tips need, and stop being lazy.
pub open spec fn materialized<S: ChunkSource>(s: StoreModel, t: S::State, tips: Seq<Seq<u8>>) -> Transfer<
    S::State,
> {
    let (next, u, out) = tips_from::<S>(s, t, tips, 0);
    match out {
        Err(e) => (next, u, Err(e)),
        Ok(_) => (StoreModel { lazy_origin: None, ..next }, u, Ok(())),
    }
}

/// Is a commit the tip of a branch, a tag or a remote branch?
pub open spec fn is_tip(s: StoreModel, x: Seq<u8>) -> bool {
    ||| exists|n: Seq<char>| #[trigger]
        s.refs.dom().contains((RefNs::Heads, n)) && s.refs[(RefNs::Heads, n)] == x
    ||| exists|n: Seq<char>| #[trigger]
        s.refs.dom().contains((RefNs::Tags, n)) && s.refs[(RefNs::Tags, n)] == x
    ||| exists|k: (Seq<char>, Seq<char>)| #[trigger]
        s.tracking.dom().contains(k) && s.tracking[k] == x
}

/// Are these the tips of the branches, the tags and the remote branches?
pub open spec fn are_tips(s: StoreModel, tips: Seq<Seq<u8>>) -> bool {
    forall|x: Seq<u8>| #[trigger] tips.contains(x) <==> is_tip(s, x)
}

fn check_batch(ids: &Vec<SourceId>, got: &Vec<Option<Vec<u8>>>) -> (r: VersionResult<
    Vec<(SourceId, Vec<u8>)>,
>)
    ensures
        crate::model::outcome(r) == checked_from(ids.deep_view(), got.deep_view(), 0, seq![]),
{
    let ghost l = ids.deep_view();
    let ghost g = got.deep_view();
    let mut out: Vec<(SourceId, Vec<u8>)> = Vec::new();
    let mut i: usize = 0;
    assert(out.deep_view() =~= seq![]);
    while i < ids.len()
        invariant
            i <= ids@.len(),
            l == ids.deep_view(),
            g == got.deep_view(),
            checked_from(l, g, i as int, out.deep_view()) == checked_from(l, g, 0, seq![]),
        decreases ids.len() - i,
    {
        let ghost before = out.deep_view();
        assert(l[i as int] == ids@[i as int].deep_view());
        if i >= got.len() {
            return Err(VersionError::ChunkNotFound(ids[i].to_hex()));
        }
        assert(g[i as int] == got@[i as int].deep_view());
        match &got[i] {
            None => {
                return Err(VersionError::ChunkNotFound(ids[i].to_hex()));
            },
            Some(bytes) => {
                match verify_object(&ids[i], bytes.as_slice()) {
                    Ok(_) => {},
                    Err(e) => {
                        return Err(e);
                    },
                }
                out.push((ids[i], bytes.dup()));
                assert(out.deep_view() =~= before.push((l[i as int], bytes@)));
            },
        }
        i = i + 1;
    }
    Ok(out)
}

impl VcStore {
    /// The objects that a tip still needs.
    pub fn missing_for(&self, tip: CommitId) -> (r: Vec<SourceId>)
        ensures
            r.deep_view() == missing_of(self.deep_view(), tip@),
    {
        match self.lazy_catalog.get(&tip) {
            Some(ids) => self.lacking(ids),
            None => {
                let mut ids: Vec<SourceId> = Vec::new();
                ids.push(SourceId::Commit(tip));
                assert(ids.deep_view() =~= seq![SourceModel::Commit(tip@)]);
                self.lacking(&ids)
            },
        }
    }

    /// Note which objects a lazy tip needs; their bytes stay with the origin.
    pub fn note_lazy_catalog(&mut self, tip: CommitId, ids: Vec<SourceId>)
        ensures
            final(self).deep_view() == (StoreModel {
                lazy_catalog: old(self).deep_view().lazy_catalog.insert(tip@, ids.deep_view()),
                ..old(self).deep_view()
            }),
    {
        self.lazy_catalog.insert(tip, ids);
    }

    /// Bring what a tip needs into the repository, in batches. A batch that is
    /// incomplete or holds a wrong object stores nothing.
    pub fn hydrate_with<S: ChunkSource>(&mut self, source: &mut S, tip: CommitId) -> (r:
        VersionResult<()>)
        ensures
            hydrated::<S>(old(self).deep_view(), old(source).state(), tip@) == (
                final(self).deep_view(),
                final(source).state(),
                crate::model::outcome(r),
            ),
    {
        reveal(hydrated);
        let missing = self.missing_for(tip);
        let ghost m = missing.deep_view();
        let ghost whole = hydrated::<S>(self.deep_view(), source.state(), tip@);
        let mut i: usize = 0;
        while i < missing.len()
            invariant
                i <= missing@.len(),
                m == missing.deep_view(),
                m.len() == missing@.len(),
                whole == hydrated::<S>(old(self).deep_view(), old(source).state(), tip@),
                hydrate_from::<S>(self.deep_view(), source.state(), m, i as int) == whole,
            decreases missing.len() - i,
        {
            let j = crate::remote::end_of_batch(i, missing.len());
            let batch = crate::remote::part_of(&missing, i, j);
            let got = match source.get_many(&batch) {
                Ok(g) => g,
                Err(e) => {
                    return Err(e);
                },
            };
            let objects = match check_batch(&batch, &got) {
                Ok(o) => o,
                Err(e) => {
                    return Err(e);
                },
            };
            match self.store_batch(&objects) {
                Ok(_) => {},
                Err(e) => {
                    return Err(e);
                },
            }
            i = j;
        }
        Ok(())
    }

    /// Bring what a tip needs from the origin, where the repository is lazy.
    pub fn lazy_hydrate<S: ChunkSource>(&mut self, origin: &mut S, tip: CommitId) -> (r:
        VersionResult<()>)
        ensures
            lazily_hydrated::<S>(old(self).deep_view(), old(origin).state(), tip@) == (
                final(self).deep_view(),
                final(origin).state(),
                crate::model::outcome(r),
            ),
    {
        if self.lazy_origin.is_none() {
            return Ok(());
        }
        self.hydrate_with(origin, tip)
    }

    /// The tips of the branches, the tags and the remote branches.
    fn all_tips(&self) -> (r: Vec<CommitId>)
        ensures
            are_tips(self.deep_view(), r.deep_view()),
    {
        let ghost s = self.deep_view();
        let mut tips: Vec<CommitId> = Vec::new();
        let heads = self.refs.list(RefNs::Heads);
        let ghost h = crate::refs::ref_rows(heads@).map_values(|e: (Seq<char>, Seq<u8>)| e.1);
        assert(tips.deep_view() =~= seq![]);
        crate::gc::add_refs(&mut tips, &heads);
        let tags = self.refs.list(RefNs::Tags);
        let ghost g = crate::refs::ref_rows(tags@).map_values(|e: (Seq<char>, Seq<u8>)| e.1);
        crate::gc::add_refs(&mut tips, &tags);
        let ghost named = tips.deep_view();
        assert(named =~= h + g);
        let keys = self.tracking.keys();
        let ghost kl = keys.deep_view();
        let mut i: usize = 0;
        while i < keys.len()
            invariant
                i <= keys@.len(),
                s == self.deep_view(),
                kl == keys.deep_view(),
                kl.to_set() == s.tracking.dom(),
                tips.deep_view().len() == named.len() + i,
                forall|j: int| 0 <= j < named.len() ==> #[trigger] tips.deep_view()[j] == named[j],
                forall|j: int|
                    0 <= j < i ==> #[trigger] tips.deep_view()[named.len() + j]
                        == s.tracking[kl[j]],
            decreases keys.len() - i,
        {
            let ghost before = tips.deep_view();
            assert(kl[i as int] == keys@[i as int].deep_view());
            assert(kl.to_set().contains(kl[i as int]));
            match self.tracking.get(&keys[i]) {
                Some(id) => {
                    tips.push(*id);
                    assert(tips.deep_view() =~= before.push(s.tracking[kl[i as int]]));
                },
                None => {},
            }
            i = i + 1;
        }
        proof {
            let all = tips.deep_view();
            assert forall|x: Seq<u8>| #[trigger] all.contains(x) <==> is_tip(s, x) by {
                crate::gc::lemma_ref_rows(s.refs, RefNs::Heads, crate::refs::ref_rows(heads@), x);
                crate::gc::lemma_ref_rows(s.refs, RefNs::Tags, crate::refs::ref_rows(tags@), x);
                if all.contains(x) {
                    let k = choose|k: int| 0 <= k < all.len() && all[k] == x;
                    if k < h.len() {
                        assert(h[k] == x);
                        assert(h.contains(x));
                    } else if k < named.len() {
                        assert(g[k - h.len()] == x);
                        assert(g.contains(x));
                    } else {
                        let j = k - named.len();
                        assert(all[named.len() + j] == s.tracking[kl[j]]);
                        assert(kl.to_set().contains(kl[j]));
                        assert(s.tracking.dom().contains(kl[j]));
                    }
                }
                if h.contains(x) {
                    let k = choose|k: int| 0 <= k < h.len() && h[k] == x;
                    assert(all[k] == x);
                }
                if g.contains(x) {
                    let k = choose|k: int| 0 <= k < g.len() && g[k] == x;
                    assert(named[h.len() + k] == x);
                    assert(all[h.len() + k] == x);
                }
                if exists|k: (Seq<char>, Seq<char>)| #[trigger]
                    s.tracking.dom().contains(k) && s.tracking[k] == x {
                    let k = choose|k: (Seq<char>, Seq<char>)| #[trigger]
                        s.tracking.dom().contains(k) && s.tracking[k] == x;
                    assert(kl.to_set().contains(k));
                    let j = choose|j: int| 0 <= j < kl.len() && kl[j] == k;
                    assert(all[named.len() + j] == x);
                }
            }
        }
        tips
    }

    /// Bring in what the tips need, one after the other.
    fn hydrate_tips<S: ChunkSource>(&mut self, origin: &mut S, tips: &Vec<CommitId>) -> (r:
        VersionResult<()>)
        ensures
            tips_from::<S>(old(self).deep_view(), old(origin).state(), tips.deep_view(), 0) == (
                final(self).deep_view(),
                final(origin).state(),
                crate::model::outcome(r),
            ),
    {
        let ghost l = tips.deep_view();
        let ghost whole = tips_from::<S>(self.deep_view(), origin.state(), l, 0);
        let mut i: usize = 0;
        while i < tips.len()
            invariant
                i <= tips@.len(),
                l == tips.deep_view(),
                whole == tips_from::<S>(old(self).deep_view(), old(origin).state(), l, 0),
                tips_from::<S>(self.deep_view(), origin.state(), l, i as int) == whole,
            decreases tips.len() - i,
        {
            assert(l[i as int] == tips@[i as int]@);
            match self.lazy_hydrate(origin, tips[i]) {
                Ok(_) => {},
                Err(e) => {
                    return Err(e);
                },
            }
            i = i + 1;
        }
        Ok(())
    }

    /// Bring in what every branch, tag and remote branch needs, and stop being lazy.
    /// The order in which the tips are gone through is open.
    pub fn materialize<S: ChunkSource>(&mut self, origin: &mut S) -> (r: VersionResult<()>)
        ensures
            old(self).deep_view().lazy_origin is None ==> r is Ok && final(self).deep_view() == old(
                self,
            ).deep_view() && final(origin).state() == old(origin).state(),
            old(self).deep_view().lazy_origin is Some ==> exists|tips: Seq<Seq<u8>>|
                {
                    &&& are_tips(old(self).deep_view(), tips)
                    &&& #[trigger] materialized::<S>(
                        old(self).deep_view(),
                        old(origin).state(),
                        tips,
                    ) == (
                        final(self).deep_view(),
                        final(origin).state(),
                        crate::model::outcome(r),
                    )
                },
    {
        if self.lazy_origin.is_none() {
            return Ok(());
        }
        let tips = self.all_tips();
        let ghost l = tips.deep_view();
        let ghost whole = materialized::<S>(self.deep_view(), origin.state(), l);
        match self.hydrate_tips(origin, &tips) {
            Ok(_) => {},
            Err(e) => {
                assert(whole == (
                    self.deep_view(),
                    origin.state(),
                    Err::<(), Fault>(e.deep_view()),
                ));
                return Err(e);
            },
        }
        self.lazy_origin = None;
        assert(whole == (self.deep_view(), origin.state(), Ok::<(), Fault>(())));
        Ok(())
    }
}

// ---------------------------------------------------------------------------
// Laws
// ---------------------------------------------------------------------------

proof fn lemma_checked_from(
    ids: Seq<SourceModel>,
    got: Seq<Option<Seq<u8>>>,
    i: int,
    done: Seq<ObjectModel>,
)
    requires
        0 <= i <= ids.len(),
        done.len() == i,
        forall|k: int|
            0 <= k < done.len() ==> (#[trigger] done[k]).0 == ids[k]
                && crate::remote_wire::verified(done[k].0, done[k].1) is Ok,
    ensures
        checked_from(ids, got, i, done) matches Ok(objects) ==> {
            &&& objects.len() == ids.len()
            &&& forall|k: int|
                0 <= k < objects.len() ==> (#[trigger] objects[k]).0 == ids[k]
                    && crate::remote_wire::verified(objects[k].0, objects[k].1) is Ok
        },
    decreases ids.len() - i,
{
    if i < ids.len() && i < got.len() {
        if let Some(bytes) = got[i] {
            if crate::remote_wire::verified(ids[i], bytes) is Ok {
                lemma_checked_from(ids, got, i + 1, done.push((ids[i], bytes)));
            }
        }
    }
}

/// A batch that passed the check is stored as a whole.
proof fn lemma_batch(s: StoreModel, ids: Seq<SourceModel>, got: Seq<Option<Seq<u8>>>, x: SourceModel)
    ensures
        checked_from(ids, got, 0, seq![]) matches Ok(objects) ==> {
            let (t, out) = crate::remote::store_from(s, objects, 0);
            &&& out is Ok
            &&& crate::remote::holds(s, x) ==> crate::remote::holds(t, x)
            &&& ids.contains(x) ==> crate::remote::holds(t, x)
            &&& t.lazy_catalog == s.lazy_catalog && t.lazy_origin == s.lazy_origin
            &&& t.refs == s.refs && t.work == s.work && t.tracking == s.tracking
        },
{
    lemma_checked_from(ids, got, 0, seq![]);
    if let Ok(objects) = checked_from(ids, got, 0, seq![]) {
        crate::remote::lemma_store_from(s, objects, 0, x);
        if ids.contains(x) {
            let k = choose|k: int| 0 <= k < ids.len() && ids[k] == x;
            assert(objects[k].0 == x);
        }
    }
}

/// A batch that is refused stores nothing: where what is missing fits one batch,
/// a failed hydration leaves the repository as it was.
pub proof fn law_refused_batch_stores_nothing<S: ChunkSource>(
    s: StoreModel,
    t: S::State,
    tip: Seq<u8>,
)
    requires
        missing_of(s, tip).len() <= crate::remote_wire::SYNC_BATCH_SIZE,
        hydrated::<S>(s, t, tip).2 is Err,
    ensures
        hydrated::<S>(s, t, tip).0 == s,
{
    reveal(hydrated);
    reveal_with_fuel(hydrate_from, 2);
    let ids = missing_of(s, tip);
    if ids.len() > 0 {
        let j = crate::remote::batch_end(0, ids.len());
        let (u, out) = S::many_said(t, ids.subrange(0, j));
        if let Ok(got) = out {
            lemma_batch(s, ids.subrange(0, j), got, ids[0]);
        }
    }
}

#[verifier::spinoff_prover]
#[verifier::rlimit(60)]
proof fn lemma_hydrate_from<S: ChunkSource>(
    s: StoreModel,
    t: S::State,
    ids: Seq<SourceModel>,
    i: int,
    x: SourceModel,
)
    requires
        0 <= i <= ids.len(),
    ensures
        ({
            let (next, u, out) = hydrate_from::<S>(s, t, ids, i);
            &&& crate::remote::holds(s, x) ==> crate::remote::holds(next, x)
            &&& out is Ok && (exists|k: int| i <= k < ids.len() && #[trigger] ids[k] == x)
                ==> crate::remote::holds(next, x)
            &&& next.lazy_catalog == s.lazy_catalog && next.lazy_origin == s.lazy_origin
            &&& next.refs == s.refs && next.work == s.work && next.tracking == s.tracking
        }),
    decreases ids.len() - i,
{
    if i < ids.len() {
        let j = crate::remote::batch_end(i, ids.len());
        let part = ids.subrange(i, j);
        let (u, out) = S::many_said(t, part);
        if let Ok(got) = out {
            lemma_batch(s, part, got, x);
            if let Ok(objects) = checked_from(part, got, 0, seq![]) {
                let (next, put) = crate::remote::store_from(s, objects, 0);
                lemma_hydrate_from::<S>(next, u, ids, j, x);
                if exists|k: int| i <= k < ids.len() && #[trigger] ids[k] == x {
                    let k = choose|k: int| i <= k < ids.len() && #[trigger] ids[k] == x;
                    if k < j {
                        assert(part[k - i] == x);
                    } else {
                        assert(j <= k < ids.len() && ids[k] == x);
                    }
                }
            }
        }
    }
}

/// A hydration that goes well brings in all that the tip needs, keeps what is held
/// and changes nothing else that hydrations go by.
proof fn lemma_hydrated<S: ChunkSource>(s: StoreModel, t: S::State, tip: Seq<u8>, x: SourceModel)
    ensures
        ({
            let (next, u, out) = hydrated::<S>(s, t, tip);
            &&& crate::remote::holds(s, x) ==> crate::remote::holds(next, x)
            &&& out is Ok && needed_of(s, tip).contains(x) ==> crate::remote::holds(next, x)
            &&& next.lazy_catalog == s.lazy_catalog && next.lazy_origin == s.lazy_origin
            &&& next.refs == s.refs && next.work == s.work && next.tracking == s.tracking
        }),
{
    reveal(hydrated);
    broadcast use vstd::seq_lib::group_filter_ensures;

    let ids = missing_of(s, tip);
    let all = needed_of(s, tip);
    let p = |id: SourceModel| !crate::remote::holds(s, id);
    lemma_hydrate_from::<S>(s, t, ids, 0, x);
    if all.contains(x) && !crate::remote::holds(s, x) {
        let k = choose|k: int| 0 <= k < all.len() && all[k] == x;
        assert(p(all[k]));
        assert(all.filter(p).contains(all[k]));
        let m = choose|m: int| 0 <= m < ids.len() && ids[m] == x;
        assert(ids[m] == x);
    }
}

/// After a hydration of a tip went well, everything that the tip needs is held, and a
/// second hydration asks the source nothing and changes nothing.
pub proof fn law_second_hydration_asks_nothing<S: ChunkSource>(
    s: StoreModel,
    t: S::State,
    tip: Seq<u8>,
    later: S::State,
)
    requires
        hydrated::<S>(s, t, tip).2 is Ok,
    ensures
        ({
            let next = hydrated::<S>(s, t, tip).0;
            &&& forall|x: SourceModel| #[trigger]
                needed_of(s, tip).contains(x) ==> crate::remote::holds(next, x)
            &&& hydrated::<S>(next, later, tip) == (next, later, Ok::<(), Fault>(()))
        }),
{
    reveal(hydrated);
    broadcast use vstd::seq_lib::group_filter_ensures;

    let next = hydrated::<S>(s, t, tip).0;
    let all = needed_of(s, tip);
    assert forall|x: SourceModel| #[trigger] all.contains(x) implies crate::remote::holds(
        next,
        x,
    ) by {
        lemma_hydrated::<S>(s, t, tip, x);
    }
    lemma_hydrated::<S>(s, t, tip, SourceModel::Commit(tip));
    let q = |id: SourceModel| !crate::remote::holds(next, id);
    let left = missing_of(next, tip);
    assert(needed_of(next, tip) == all);
    if left.len() > 0 {
        assert(q(all.filter(q)[0]));
        crate::replay::lemma_filter_keeps(all, q, 0);
        assert(crate::remote::holds(next, left[0]));
    }
}

proof fn lemma_tips_from<S: ChunkSource>(
    s: StoreModel,
    t: S::State,
    tips: Seq<Seq<u8>>,
    i: int,
    k: int,
    x: SourceModel,
)
    requires
        0 <= i <= tips.len(),
        0 <= k < tips.len(),
        s.lazy_origin is Some,
    ensures
        ({
            let (next, u, out) = tips_from::<S>(s, t, tips, i);
            &&& crate::remote::holds(s, x) ==> crate::remote::holds(next, x)
            &&& out is Ok && i <= k && needed_of(s, tips[k]).contains(x) ==> crate::remote::holds(
                next,
                x,
            )
            &&& next.lazy_catalog == s.lazy_catalog
            &&& next.refs == s.refs && next.work == s.work && next.tracking == s.tracking
        }),
    decreases tips.len() - i,
{
    if i < tips.len() {
        lemma_hydrated::<S>(s, t, tips[i], x);
        let (next, u, out) = lazily_hydrated::<S>(s, t, tips[i]);
        if out is Ok {
            lemma_tips_from::<S>(next, u, tips, i + 1, k, x);
        }
    }
}

/// After materialising went well, everything is held that any of the tips needs, and
/// the refs, the remote tips and the working tables are as they were.
pub proof fn law_materialized_holds_everything<S: ChunkSource>(
    s: StoreModel,
    t: S::State,
    tips: Seq<Seq<u8>>,
    tip: Seq<u8>,
    x: SourceModel,
)
    requires
        s.lazy_origin is Some,
        materialized::<S>(s, t, tips).2 is Ok,
        tips.contains(tip),
        needed_of(s, tip).contains(x),
    ensures
        ({
            let next = materialized::<S>(s, t, tips).0;
            &&& crate::remote::holds(next, x)
            &&& next.refs == s.refs && next.work == s.work && next.tracking == s.tracking
        }),
{
    let k = choose|k: int| 0 <= k < tips.len() && tips[k] == tip;
    lemma_tips_from::<S>(s, t, tips, 0, k, x);
    let next = tips_from::<S>(s, t, tips, 0).0;
    let after = materialized::<S>(s, t, tips).0;
    assert(crate::remote::holds(after, x) == crate::remote::holds(next, x));
}

/// Does a source in this state give these objects? Asked for any of them it answers
/// with all that was asked for, each as its id names it, and is in that state still.
pub open spec fn gives<S: ChunkSource>(t: S::State, objects: Set<SourceModel>) -> bool {
    forall|ids: Seq<SourceModel>|
        ids.to_set().subset_of(objects) ==> {
            let (u, out) = #[trigger] S::many_said(t, ids);
            &&& u == t
            &&& out matches Ok(got) && got.len() == ids.len() && forall|k: int|
                0 <= k < ids.len() ==> ((#[trigger] got[k]) matches Some(bytes)
                    && crate::remote_wire::verified(ids[k], bytes) is Ok)
        }
}

proof fn lemma_all_checked(
    ids: Seq<SourceModel>,
    got: Seq<Option<Seq<u8>>>,
    i: int,
    done: Seq<ObjectModel>,
)
    requires
        0 <= i <= ids.len() == got.len(),
        forall|k: int|
            0 <= k < ids.len() ==> ((#[trigger] got[k]) matches Some(bytes)
                && crate::remote_wire::verified(ids[k], bytes) is Ok),
    ensures
        checked_from(ids, got, i, done) is Ok,
    decreases ids.len() - i,
{
    if i < ids.len() {
        lemma_all_checked(ids, got, i + 1, done.push((ids[i], got[i]->0)));
    }
}

/// What a source gives is brought in.
proof fn lemma_given_from<S: ChunkSource>(
    s: StoreModel,
    t: S::State,
    ids: Seq<SourceModel>,
    i: int,
    objects: Set<SourceModel>,
)
    requires
        0 <= i <= ids.len(),
        gives::<S>(t, objects),
        ids.to_set().subset_of(objects),
    ensures
        hydrate_from::<S>(s, t, ids, i).1 == t,
        hydrate_from::<S>(s, t, ids, i).2 is Ok,
    decreases ids.len() - i,
{
    if i < ids.len() {
        let j = crate::remote::batch_end(i, ids.len());
        let part = ids.subrange(i, j);
        assert forall|x: SourceModel| part.to_set().contains(x) implies objects.contains(x) by {
            let k = choose|k: int| 0 <= k < part.len() && part[k] == x;
            assert(ids[i + k] == x);
            assert(ids.to_set().contains(x));
        }
        assert(part.to_set().subset_of(objects));
        let got = S::many_said(t, part).1->Ok_0;
        lemma_all_checked(part, got, 0, seq![]);
        lemma_batch(s, part, got, ids[i]);
        let found = checked_from(part, got, 0, seq![])->Ok_0;
        let next = crate::remote::store_from(s, found, 0).0;
        lemma_given_from::<S>(next, t, ids, j, objects);
    }
}

/// Is all that a tip needs held, or among these objects?
spec fn within_reach(s: StoreModel, tip: Seq<u8>, objects: Set<SourceModel>) -> bool {
    forall|x: SourceModel| #[trigger]
        needed_of(s, tip).contains(x) ==> crate::remote::holds(s, x) || objects.contains(x)
}

proof fn lemma_given_tips<S: ChunkSource>(
    s: StoreModel,
    t: S::State,
    tips: Seq<Seq<u8>>,
    i: int,
    objects: Set<SourceModel>,
)
    requires
        0 <= i <= tips.len(),
        gives::<S>(t, objects),
        forall|k: int| 0 <= k < tips.len() ==> within_reach(s, #[trigger] tips[k], objects),
    ensures
        tips_from::<S>(s, t, tips, i).1 == t,
        tips_from::<S>(s, t, tips, i).2 is Ok,
    decreases tips.len() - i,
{
    if i < tips.len() {
        let tip = tips[i];
        let (next, u, out) = lazily_hydrated::<S>(s, t, tip);
        if s.lazy_origin is Some {
            reveal(hydrated);
            let ids = missing_of(s, tip);
            let p = |id: SourceModel| !crate::remote::holds(s, id);
            assert forall|x: SourceModel| ids.to_set().contains(x) implies objects.contains(x) by {
                needed_of(s, tip).lemma_filter_contains_rev(p, x);
                assert(within_reach(s, tips[i], objects));
                let k = choose|k: int| 0 <= k < ids.len() && ids[k] == x;
                crate::replay::lemma_filter_keeps(needed_of(s, tip), p, k);
            }
            lemma_given_from::<S>(s, t, ids, 0, objects);
        }
        assert forall|k: int| 0 <= k < tips.len() implies within_reach(
            next,
            #[trigger] tips[k],
            objects,
        ) by {
            assert(within_reach(s, tips[k], objects));
            assert forall|x: SourceModel| #[trigger] needed_of(next, tips[k]).contains(
                x,
            ) implies crate::remote::holds(next, x) || objects.contains(x) by {
                lemma_hydrated::<S>(s, t, tip, x);
                assert(needed_of(s, tips[k]).contains(x));
            }
            lemma_hydrated::<S>(s, t, tip, SourceModel::Commit(tip));
        }
        lemma_given_tips::<S>(next, t, tips, i + 1, objects);
    }
}

/// Materialising goes well where the source gives all that the tips need and that is
/// not held: the repository is then no longer lazy.
pub proof fn law_materialising_goes_well<S: ChunkSource>(
    s: StoreModel,
    t: S::State,
    tips: Seq<Seq<u8>>,
    objects: Set<SourceModel>,
)
    requires
        gives::<S>(t, objects),
        forall|tip: Seq<u8>, x: SourceModel|
            #![trigger tips.contains(tip), needed_of(s, tip).contains(x)]
            tips.contains(tip) && needed_of(s, tip).contains(x) ==> crate::remote::holds(s, x)
                || objects.contains(x),
    ensures
        materialized::<S>(s, t, tips).1 == t,
        materialized::<S>(s, t, tips).2 is Ok,
        materialized::<S>(s, t, tips).0.lazy_origin is None,
{
    assert forall|k: int| 0 <= k < tips.len() implies within_reach(
        s,
        #[trigger] tips[k],
        objects,
    ) by {
        assert(tips.contains(tips[k]));
    }
    lemma_given_tips::<S>(s, t, tips, 0, objects);
}

/// Materialising ends laziness where it goes well.
pub proof fn law_materialized_is_not_lazy<S: ChunkSource>(
    s: StoreModel,
    t: S::State,
    tips: Seq<Seq<u8>>,
)
    requires
        materialized::<S>(s, t, tips).2 is Ok,
    ensures
        materialized::<S>(s, t, tips).0.lazy_origin is None,
{
}

} // verus!
