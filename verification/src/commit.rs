//! Commits, their byte form and identity, and walks over the commit graph.

use vstd::prelude::*;

use crate::assoc::AssocMap;
use crate::digest::sha256_of;
use crate::model::{array20, CommitId, RootHash, VersionError, VersionResult};
use crate::octets::{push_all, push_le};
use crate::reach::{reachable, Links};
use crate::reader::Reader;
use crate::refs::{RefName, RefNs, RefStore, Revision};
use crate::text::{cat3, decimal_text, Dup};

verus! {

/// A commit in the version graph.
#[derive(Debug, Clone, PartialEq, Eq)]
pub struct Commit {
    pub parents: Vec<CommitId>,
    pub root: RootHash,
    pub meta: CommitMeta,
}

/// Who made a commit, when, and what they said of it.
#[derive(Debug, Clone, PartialEq, Eq)]
pub struct CommitMeta {
    pub name: String,
    pub email: String,
    pub message: String,
    pub timestamp: i64,
}

/// The values of a commit.
pub struct CommitModel {
    pub parents: Seq<Seq<u8>>,
    pub root: Seq<u8>,
    pub name: Seq<char>,
    pub email: Seq<char>,
    pub message: Seq<char>,
    pub timestamp: int,
}

impl DeepView for Commit {
    type V = CommitModel;

    open spec fn deep_view(&self) -> CommitModel {
        CommitModel {
            parents: self.parents.deep_view(),
            root: self.root@,
            name: self.meta.name@,
            email: self.meta.email@,
            message: self.meta.message@,
            timestamp: self.meta.timestamp as int,
        }
    }
}

impl Dup for Commit {
    fn dup(&self) -> (r: Self) {
        Commit {
            parents: self.parents.dup(),
            root: self.root,
            meta: CommitMeta {
                name: self.meta.name.clone(),
                email: self.meta.email.clone(),
                message: self.meta.message.clone(),
                timestamp: self.meta.timestamp,
            },
        }
    }
}

// ---------------------------------------------------------------------------
// Byte form
// ---------------------------------------------------------------------------

/// A text behind its length in four bytes.
pub open spec fn long_text(t: Seq<char>) -> Seq<u8> {
    crate::octets::le_bytes(crate::text::utf8(t).len(), 4) + crate::text::utf8(t)
}

/// A signed number as its two's complement in 64 bits.
pub open spec fn twos(x: int) -> nat {
    if x < 0 {
        (x + 0x1_0000_0000_0000_0000) as nat
    } else {
        x as nat
    }
}

/// All bytes of a list of ids.
pub open spec fn ids_bytes(ids: Seq<Seq<u8>>) -> Seq<u8>
    decreases ids.len(),
{
    if ids.len() == 0 {
        seq![]
    } else {
        ids[0] + ids_bytes(ids.drop_first())
    }
}

/// The canonical bytes of a commit: a version byte, the number of parents in
/// one byte, the parents, the root, three texts behind their lengths and the
/// timestamp, all numbers least significant byte first.
pub open spec fn commit_bytes(c: CommitModel) -> Seq<u8> {
    seq![2u8] + (crate::octets::le_bytes(c.parents.len(), 1) + (ids_bytes(c.parents) + (c.root + (
    long_text(c.name) + (long_text(c.email) + (long_text(c.message) + crate::octets::le_bytes(
        twos(c.timestamp),
        8,
    )))))))
}

/// Do the counts and lengths of a commit fit their fields?
pub open spec fn commit_fits(c: CommitModel) -> bool {
    &&& c.parents.len() <= 255
    &&& forall|i: int| 0 <= i < c.parents.len() ==> (#[trigger] c.parents[i]).len() == 20
    &&& c.root.len() == 20
    &&& crate::text::utf8(c.name).len() < 0x1_0000_0000
    &&& crate::text::utf8(c.email).len() < 0x1_0000_0000
    &&& crate::text::utf8(c.message).len() < 0x1_0000_0000
    &&& i64::MIN <= c.timestamp <= i64::MAX
}

/// Append a text behind its length in four bytes.
fn push_long_text(buf: &mut Vec<u8>, t: &str)
    ensures
        final(buf)@ == old(buf)@ + long_text(t@),
{
    let bytes = t.as_bytes();
    push_le(buf, bytes.len() as u64, 4);
    push_all(buf, bytes);
    assert(buf@ =~= old(buf)@ + long_text(t@));
}

/// The two's complement of `x`.
pub fn twos_of(x: i64) -> (r: u64)
    ensures
        r as nat == twos(x as int),
{
    if x < 0 {
        u64::MAX - (-(x + 1)) as u64
    } else {
        x as u64
    }
}

/// The signed number with the two's complement `x`.
pub open spec fn untwos(x: nat) -> int {
    if x >= 0x8000_0000_0000_0000 {
        x - 0x1_0000_0000_0000_0000
    } else {
        x as int
    }
}

/// The signed number with the two's complement `x`.
pub fn untwos_of(x: u64) -> (r: i64)
    ensures
        r as int == untwos(x as nat),
{
    if x >= 0x8000_0000_0000_0000 {
        let below: i64 = (u64::MAX - x) as i64;
        -below - 1
    } else {
        x as i64
    }
}

/// The canonical bytes of a commit.
pub fn encode_v2(commit: &Commit) -> (r: Vec<u8>)
    ensures
        r@ == commit_bytes(commit.deep_view()),
{
    let mut buf: Vec<u8> = Vec::new();
    buf.push(2u8);
    push_le(&mut buf, commit.parents.len() as u64, 1);
    let ghost c = commit.deep_view();
    let ghost ids = c.parents;
    let ghost head = buf@;
    let mut i: usize = 0;
    assert(ids.skip(0) =~= ids);
    while i < commit.parents.len()
        invariant
            i <= commit.parents@.len(),
            ids == commit.parents.deep_view(),
            buf@ + ids_bytes(ids.skip(i as int)) == head + ids_bytes(ids),
        decreases commit.parents.len() - i,
    {
        let ghost before = buf@;
        push_all(&mut buf, vstd::array::array_as_slice(&commit.parents[i].0));
        proof {
            let t = ids.skip(i as int);
            assert(t.drop_first() =~= ids.skip(i + 1));
            assert(t[0] == commit.parents@[i as int]@);
            assert(before + ids_bytes(t) =~= buf@ + ids_bytes(ids.skip(i + 1)));
        }
        i = i + 1;
    }
    assert(ids.skip(i as int) =~= seq![]);
    assert(buf@ =~= head + ids_bytes(ids));
    push_all(&mut buf, vstd::array::array_as_slice(&commit.root.0));
    push_long_text(&mut buf, commit.meta.name.as_str());
    push_long_text(&mut buf, commit.meta.email.as_str());
    push_long_text(&mut buf, commit.meta.message.as_str());
    push_le(&mut buf, twos_of(commit.meta.timestamp), 8);
    assert(buf@ =~= commit_bytes(c));
    buf
}

/// Read a list of `n` ids.
pub open spec fn read_ids(s: Seq<u8>, n: nat) -> Option<(Seq<Seq<u8>>, Seq<u8>)>
    decreases n,
{
    if n == 0 {
        Some((seq![], s))
    } else {
        match crate::reader::split_n(s, 20) {
            None => None,
            Some((id, s1)) => match read_ids(s1, (n - 1) as nat) {
                None => None,
                Some((ids, s2)) => Some((seq![id] + ids, s2)),
            },
        }
    }
}

/// Read a text behind its length in four bytes.
pub open spec fn read_long_text(s: Seq<u8>) -> Option<(Seq<char>, Seq<u8>)> {
    match crate::reader::read_le_n(s, 4) {
        Some((n, rest)) => crate::reader::read_text_n(rest, n),
        None => None,
    }
}

/// Read the fields behind the parents.
pub open spec fn read_commit_tail(parents: Seq<Seq<u8>>, s: Seq<u8>) -> Option<CommitModel> {
    match crate::reader::split_n(s, 20) {
        None => None,
        Some((root, s1)) => match read_long_text(s1) {
            None => None,
            Some((name, s2)) => match read_long_text(s2) {
                None => None,
                Some((email, s3)) => match read_long_text(s3) {
                    None => None,
                    Some((message, s4)) => match crate::reader::read_le_n(s4, 8) {
                        None => None,
                        Some((t, _)) => Some(
                            CommitModel {
                                parents,
                                root,
                                name,
                                email,
                                message,
                                timestamp: untwos(t),
                            },
                        ),
                    },
                },
            },
        },
    }
}

/// Read a commit from the front of `s`; bytes behind it are ignored.
pub open spec fn read_commit(s: Seq<u8>) -> Option<CommitModel> {
    if s.len() < 2 || s[0] != 2 {
        None
    } else {
        match read_ids(s.skip(2), s[1] as nat) {
            None => None,
            Some((parents, rest)) => read_commit_tail(parents, rest),
        }
    }
}

pub(crate) fn take_long_text(r: &mut Reader) -> (t: Option<String>)
    requires
        old(r).wf(),
    ensures
        final(r).wf(),
        match read_long_text(old(r).rest()) {
            Some((text, rest)) => t matches Some(s) && s@ == text && final(r).rest() == rest,
            None => t is None,
        },
{
    proof {
        crate::octets::lemma_radix();
    }
    match r.le(4) {
        Some(n) => r.text(n as usize),
        None => None,
    }
}

/// Read the fields behind the parents.
fn decode_tail(r: &mut Reader, parents: Vec<CommitId>) -> (c: Option<Commit>)
    requires
        old(r).wf(),
    ensures
        match read_commit_tail(parents.deep_view(), old(r).rest()) {
            Some(m) => c matches Some(x) && x.deep_view() == m,
            None => c is None,
        },
{
    let root = match r.take(20) {
        Some(b) => b,
        None => {
            return None;
        },
    };
    assert(root@.subrange(0, 20) =~= root@);
    let name = match take_long_text(r) {
        Some(t) => t,
        None => {
            return None;
        },
    };
    let email = match take_long_text(r) {
        Some(t) => t,
        None => {
            return None;
        },
    };
    let message = match take_long_text(r) {
        Some(t) => t,
        None => {
            return None;
        },
    };
    match r.le(8) {
        Some(t) => Some(
            Commit {
                parents,
                root: RootHash(array20(root.as_slice(), 0)),
                meta: CommitMeta { name, email, message, timestamp: untwos_of(t) },
            },
        ),
        None => None,
    }
}

spec fn ids_prepended(
    done: Seq<Seq<u8>>,
    r: Option<(Seq<Seq<u8>>, Seq<u8>)>,
) -> Option<(Seq<Seq<u8>>, Seq<u8>)> {
    match r {
        Some((t, rest)) => Some((done + t, rest)),
        None => None,
    }
}

/// Read a commit back from its canonical bytes.
pub fn decode_v2(bytes: &[u8]) -> (r: VersionResult<Commit>)
    ensures
        crate::model::outcome(r) == (match read_commit(bytes@) {
            Some(c) => Ok::<CommitModel, VersionError<Seq<char>>>(c),
            None => Err(VersionError::InvalidCommitEncoding),
        }),
{
    if bytes.len() < 2 || bytes[0] != 2 {
        return Err(VersionError::InvalidCommitEncoding);
    }
    let count: usize = bytes[1] as usize;
    let mut r = Reader { data: bytes, pos: 2 };
    let mut parents: Vec<CommitId> = Vec::new();
    let ghost start = r.rest();
    let mut i: usize = 0;
    assert(parents.deep_view() =~= seq![]);
    proof {
        if let Some((t, rest)) = read_ids(start, count as nat) {
            assert(seq![] + t =~= t);
        }
    }
    while i < count
        invariant
            i <= count,
            r.wf(),
            bytes@.len() >= 2,
            bytes@[0] == 2,
            count == bytes@[1],
            start == bytes@.skip(2),
            read_ids(start, count as nat) == ids_prepended(
                parents.deep_view(),
                read_ids(r.rest(), (count - i) as nat),
            ),
        decreases count - i,
    {
        let ghost before = parents.deep_view();
        let b = match r.take(20) {
            Some(b) => b,
            None => {
                return Err(VersionError::InvalidCommitEncoding);
            },
        };
        assert(b@.subrange(0, 20) =~= b@);
        parents.push(CommitId(array20(b.as_slice(), 0)));
        proof {
            assert(parents.deep_view() =~= before.push(b@));
            if let Some((t, rest)) = read_ids(r.rest(), (count - i - 1) as nat) {
                assert(before + (seq![b@] + t) =~= before.push(b@) + t);
            }
        }
        i = i + 1;
    }
    assert(parents.deep_view() + seq![] =~= parents.deep_view());
    match decode_tail(&mut r, parents) {
        Some(c) => Ok(c),
        None => Err(VersionError::InvalidCommitEncoding),
    }
}

proof fn lemma_read_ids(ids: Seq<Seq<u8>>, rest: Seq<u8>)
    requires
        forall|i: int| 0 <= i < ids.len() ==> (#[trigger] ids[i]).len() == 20,
    ensures
        read_ids(ids_bytes(ids) + rest, ids.len()) == Some((ids, rest)),
    decreases ids.len(),
{
    if ids.len() == 0 {
        assert(ids_bytes(ids) + rest =~= rest);
        assert(ids =~= seq![]);
    } else {
        let t = ids.drop_first();
        lemma_read_ids(t, rest);
        crate::reader::lemma_split_n(ids[0], ids_bytes(t) + rest);
        assert(ids_bytes(ids) + rest =~= ids[0] + (ids_bytes(t) + rest));
        assert(seq![ids[0]] + t =~= ids);
    }
}

pub proof fn lemma_read_long_text(t: Seq<char>, rest: Seq<u8>)
    requires
        crate::text::utf8(t).len() < 0x1_0000_0000,
    ensures
        read_long_text(long_text(t) + rest) == Some((t, rest)),
{
    crate::octets::lemma_radix();
    let n = crate::text::utf8(t).len();
    crate::reader::lemma_read_le_n(n, 4, crate::text::utf8(t) + rest);
    crate::reader::lemma_read_text_n(t, rest);
    assert(long_text(t) + rest =~= crate::octets::le_bytes(n, 4) + (crate::text::utf8(t) + rest));
}

/// A commit whose parts fit reads back from its canonical bytes, whatever
/// stands behind them.
pub proof fn law_commit_roundtrip(c: CommitModel, rest: Seq<u8>)
    requires
        commit_fits(c),
    ensures
        read_commit(commit_bytes(c) + rest) == Some(c),
{
    crate::octets::lemma_radix();
    let stamp = crate::octets::le_bytes(twos(c.timestamp), 8);
    let d = stamp + rest;
    let tail = c.root + (long_text(c.name) + (long_text(c.email) + (long_text(c.message) + d)));
    let s = commit_bytes(c) + rest;
    let count = crate::octets::le_bytes(c.parents.len(), 1);
    crate::octets::lemma_le_roundtrip(c.parents.len(), 1);
    lemma_tail_behind(c, rest);
    assert(s.skip(2) =~= ids_bytes(c.parents) + tail);
    assert(s[0] == 2);
    reveal_with_fuel(crate::octets::le_value, 2);
    assert(s[1] == count[0]);
    assert(count[0] as nat == c.parents.len());
    lemma_read_ids(c.parents, tail);
    crate::reader::lemma_split_n(
        c.root,
        long_text(c.name) + (long_text(c.email) + (long_text(c.message) + d)),
    );
    lemma_read_long_text(c.name, long_text(c.email) + (long_text(c.message) + d));
    lemma_read_long_text(c.email, long_text(c.message) + d);
    lemma_read_long_text(c.message, d);
    crate::reader::lemma_read_le_n(twos(c.timestamp), 8, rest);
}

proof fn lemma_tail_behind(c: CommitModel, rest: Seq<u8>)
    ensures
        ({
            let stamp = crate::octets::le_bytes(twos(c.timestamp), 8);
            let d = stamp + rest;
            commit_bytes(c) + rest == seq![2u8] + (crate::octets::le_bytes(c.parents.len(), 1) + (
            ids_bytes(c.parents) + (c.root + (long_text(c.name) + (long_text(c.email) + (long_text(
                c.message,
            ) + d))))))
        }),
{
    let stamp = crate::octets::le_bytes(twos(c.timestamp), 8);
    let d = stamp + rest;
    assert(commit_bytes(c) + rest =~= seq![2u8] + (crate::octets::le_bytes(c.parents.len(), 1) + (
    ids_bytes(c.parents) + (c.root + (long_text(c.name) + (long_text(c.email) + (long_text(c.message)
        + d)))))));
}

/// Commits whose parts fit differ in their canonical bytes wherever they differ.
pub proof fn law_commit_bytes_injective(a: CommitModel, b: CommitModel)
    requires
        commit_fits(a),
        commit_fits(b),
        commit_bytes(a) == commit_bytes(b),
    ensures
        a == b,
{
    law_commit_roundtrip(a, seq![]);
    law_commit_roundtrip(b, seq![]);
}

/// The identity of a commit: the SHA-256 digest of its canonical bytes, cut to
/// twenty bytes.
pub open spec fn commit_id(c: CommitModel) -> Seq<u8> {
    crate::digest::sha256_digest(commit_bytes(c)).take(20)
}

/// The identity of a commit.
pub fn hash_commit(commit: &Commit) -> (r: CommitId)
    ensures
        r@ == commit_id(commit.deep_view()),
{
    let canonical = encode_v2(commit);
    let full = sha256_of(canonical.as_slice());
    let r = CommitId(array20(vstd::array::array_as_slice(&full), 0));
    assert(full@.subrange(0, 20) =~= full@.take(20));
    r
}

// ---------------------------------------------------------------------------
// Commit stores
// ---------------------------------------------------------------------------

/// The commits of a store, by identity.
pub type Graph = Map<Seq<u8>, CommitModel>;

/// Stores commits.
pub trait CommitStore: Sized {
    /// The commits held, finitely many.
    spec fn commits(&self) -> Graph;

    proof fn commits_finite(&self)
        ensures
            self.commits().dom().finite(),
    ;

    fn get_commit(&self, id: &CommitId) -> (r: Option<Commit>)
        ensures
            r is Some <==> self.commits().dom().contains(id@),
            r matches Some(c) ==> c.deep_view() == self.commits()[id@],
    ;

    fn put_commit(&mut self, commit: Commit) -> (r: CommitId)
        ensures
            r@ == commit_id(commit.deep_view()),
            final(self).commits() == old(self).commits().insert(r@, commit.deep_view()),
    ;
}

/// Commits in memory.
#[derive(Debug, Clone)]
pub struct MemCommitStore {
    pub commits: AssocMap<CommitId, Commit>,
}

impl DeepView for MemCommitStore {
    type V = Graph;

    open spec fn deep_view(&self) -> Graph {
        self.commits.deep_view()
    }
}

impl Dup for MemCommitStore {
    fn dup(&self) -> (r: Self) {
        MemCommitStore { commits: self.commits.dup() }
    }
}

impl MemCommitStore {
    pub fn new() -> (r: Self)
        ensures
            r.deep_view() == Map::<Seq<u8>, CommitModel>::empty(),
    {
        MemCommitStore { commits: AssocMap::new() }
    }
}

impl Default for MemCommitStore {
    fn default() -> (r: Self)
        ensures
            r.deep_view() == Map::<Seq<u8>, CommitModel>::empty(),
    {
        Self::new()
    }
}

impl CommitStore for MemCommitStore {
    open spec fn commits(&self) -> Graph {
        self.deep_view()
    }

    proof fn commits_finite(&self) {
        self.commits.lemma_finite();
    }

    fn get_commit(&self, id: &CommitId) -> (r: Option<Commit>) {
        match self.commits.get(id) {
            Some(c) => Some(c.dup()),
            None => None,
        }
    }

    fn put_commit(&mut self, commit: Commit) -> (r: CommitId) {
        let id = hash_commit(&commit);
        self.commits.insert(id, commit);
        id
    }
}

// ---------------------------------------------------------------------------
// Walks
// ---------------------------------------------------------------------------

/// Follow first parents from `id` behind the ids in `done`, up to a commit
/// without parents or one that is in `done` already. The error is the first id
/// that the graph lacks.
pub open spec fn first_parents(g: Graph, id: Seq<u8>, done: Seq<Seq<u8>>) -> Result<
    Seq<Seq<u8>>,
    Seq<u8>,
>
    decreases g.dom().difference(done.to_set()).len(),
    when g.dom().finite()
    via first_parents_shrinks
{
    if done.contains(id) {
        Ok(done)
    } else if !g.dom().contains(id) {
        Err(id)
    } else if g[id].parents.len() == 0 {
        Ok(done.push(id))
    } else {
        first_parents(g, g[id].parents[0], done.push(id))
    }
}

#[via_fn]
proof fn first_parents_shrinks(g: Graph, id: Seq<u8>, done: Seq<Seq<u8>>) {
    lemma_unseen_shrinks(g, id, done);
}

proof fn lemma_unseen_shrinks(g: Graph, id: Seq<u8>, done: Seq<Seq<u8>>)
    requires
        g.dom().finite(),
    ensures
        g.dom().contains(id) && !done.contains(id) ==> g.dom().difference(
            done.push(id).to_set(),
        ).len() < g.dom().difference(done.to_set()).len(),
{
    if g.dom().contains(id) && !done.contains(id) {
        let a = g.dom().difference(done.to_set());
        let b = g.dom().difference(done.push(id).to_set());
        assert(a.contains(id));
        assert forall|x: Seq<u8>| done.push(id).contains(x) <==> done.contains(x) || x == id by {
            if done.contains(x) {
                let i = choose|i: int| 0 <= i < done.len() && done[i] == x;
                assert(done.push(id)[i] == x);
            }
            assert(done.push(id)[done.len() as int] == id);
        }
        assert(b =~= a.remove(id));
    }
}

/// The first-parent chain of a commit.
pub open spec fn chain(g: Graph, id: Seq<u8>) -> Result<Seq<Seq<u8>>, Seq<u8>> {
    first_parents(g, id, seq![])
}

/// The error for a commit the graph lacks.
pub open spec fn missing(id: Seq<u8>) -> VersionError<Seq<char>> {
    VersionError::CommitNotFound(crate::digest::hex_text(id))
}

/// The first-parent chain, or the error for the commit it lacks.
pub open spec fn ancestors_of(g: Graph, id: Seq<u8>) -> Result<
    Seq<Seq<u8>>,
    VersionError<Seq<char>>,
> {
    match chain(g, id) {
        Ok(c) => Ok(c),
        Err(m) => Err(missing(m)),
    }
}

/// Is `id` in the list?
pub fn has_id(v: &Vec<CommitId>, id: &CommitId) -> (r: bool)
    ensures
        r == v.deep_view().contains(id@),
{
    let mut i: usize = 0;
    while i < v.len()
        invariant
            i <= v.len(),
            forall|j: int| 0 <= j < i ==> (#[trigger] v@[j])@ != id@,
        decreases v.len() - i,
    {
        if v[i] == *id {
            assert(v.deep_view()[i as int] == id@);
            return true;
        }
        i = i + 1;
    }
    assert forall|j: int| 0 <= j < v.len() implies v.deep_view()[j] != id@ by {
        assert(v.deep_view()[j] == v@[j]@);
    }
    false
}

/// Walk the first parents of `id`, itself first.
pub fn ancestors<S: CommitStore>(store: &S, id: CommitId) -> (r: VersionResult<Vec<CommitId>>)
    ensures
        crate::model::outcome(r) == ancestors_of(store.commits(), id@),
{
    let ghost g = store.commits();
    proof {
        store.commits_finite();
    }
    let mut result: Vec<CommitId> = Vec::new();
    assert(result.deep_view() =~= seq![]);
    let mut cid: CommitId = id;
    loop
        invariant
            g == store.commits(),
            g.dom().finite(),
            first_parents(g, cid@, result.deep_view()) == chain(g, id@),
        decreases g.dom().difference(result.deep_view().to_set()).len(),
    {
        if has_id(&result, &cid) {
            return Ok(result);
        }
        let ghost before = result.deep_view();
        match store.get_commit(&cid) {
            None => {
                return Err(VersionError::CommitNotFound(cid.to_hex()));
            },
            Some(commit) => {
                result.push(cid);
                proof {
                    assert(result.deep_view() =~= before.push(cid@));
                    lemma_unseen_shrinks(g, cid@, before);
                }
                if commit.parents.len() == 0 {
                    return Ok(result);
                }
                assert(commit.deep_view().parents[0] == commit.parents@[0]@);
                cid = commit.parents[0];
            },
        }
    }
}

/// The parents of each commit.
pub open spec fn parent_links(g: Graph) -> Map<Seq<u8>, Seq<Seq<u8>>> {
    g.map_values(|c: CommitModel| c.parents)
}

/// Is `a` in the history of `b`, over all parents? A first-parent chain that is
/// broken is an error.
pub open spec fn ancestry(g: Graph, a: Seq<u8>, b: Seq<u8>) -> Result<
    bool,
    VersionError<Seq<char>>,
> {
    match ancestors_of(g, b) {
        Ok(_) => Ok(crate::reach::reaches(parent_links(g), set![b], a)),
        Err(e) => Err(e),
    }
}

/// The links from the commits of a store to their parents.
struct ParentLinks<'a, S: CommitStore> {
    store: &'a S,
}

impl<'a, S: CommitStore> Links<CommitId> for ParentLinks<'a, S> {
    closed spec fn links(&self) -> Map<Seq<u8>, Seq<Seq<u8>>> {
        parent_links(self.store.commits())
    }

    proof fn links_finite(&self) {
        self.store.commits_finite();
        assert(self.links().dom() =~= self.store.commits().dom());
    }

    fn follow(&self, x: &CommitId) -> (r: Vec<CommitId>) {
        match self.store.get_commit(x) {
            Some(c) => c.parents,
            None => {
                let r: Vec<CommitId> = Vec::new();
                assert(r.deep_view() =~= seq![]);
                r
            },
        }
    }
}

/// Is `a` an ancestor of `b`, over all parents? A commit counts as its own.
pub fn is_ancestor<S: CommitStore>(store: &S, a: CommitId, b: CommitId) -> (r: VersionResult<bool>)
    ensures
        crate::model::outcome(r) == ancestry(store.commits(), a@, b@),
{
    match ancestors(store, b) {
        Ok(_) => {
            let links = ParentLinks { store };
            let mut roots: Vec<CommitId> = Vec::new();
            roots.push(b);
            proof {
                let l = roots.deep_view();
                assert(l =~= seq![b@]);
                assert(l[0] == b@);
                assert(l.to_set() =~= set![b@]);
            }
            Ok(reachable(&links, roots).contains(&a))
        },
        Err(e) => Err(e),
    }
}

/// Every commit on the first-parent chain is an ancestor.
pub proof fn law_chain_is_ancestry(g: Graph, id: Seq<u8>, i: int)
    requires
        g.dom().finite(),
        ancestors_of(g, id) matches Ok(c) && 0 <= i < c.len(),
    ensures
        ancestry(g, ancestors_of(g, id)->Ok_0[i], id) == Ok::<bool, VersionError<Seq<char>>>(true),
{
    crate::reach::lemma_root_reached(parent_links(g), set![id], id);
    lemma_chain_reached(g, id, id, seq![]);
    let c = chain(g, id)->Ok_0;
    assert(c.contains(c[i]));
}

/// Each parent of an ancestor is an ancestor: histories run over all parents.
pub proof fn law_parents_of_ancestors(g: Graph, a: Seq<u8>, b: Seq<u8>, i: int)
    requires
        ancestry(g, a, b) == Ok::<bool, VersionError<Seq<char>>>(true),
        g.dom().contains(a),
        0 <= i < g[a].parents.len(),
    ensures
        ancestry(g, g[a].parents[i], b) == Ok::<bool, VersionError<Seq<char>>>(true),
{
    let p = g[a].parents;
    assert(crate::reach::targets(parent_links(g), a) == p);
    assert(p.contains(p[i]));
    crate::reach::lemma_target_reached(parent_links(g), set![b], a, p[i]);
}

proof fn lemma_chain_reached(g: Graph, root: Seq<u8>, id: Seq<u8>, done: Seq<Seq<u8>>)
    requires
        g.dom().finite(),
        crate::reach::reaches(parent_links(g), set![root], id),
        forall|x: Seq<u8>| #[trigger]
            done.contains(x) ==> crate::reach::reaches(parent_links(g), set![root], x),
    ensures
        first_parents(g, id, done) matches Ok(c) ==> forall|x: Seq<u8>| #[trigger]
            c.contains(x) ==> crate::reach::reaches(parent_links(g), set![root], x),
    decreases g.dom().difference(done.to_set()).len(),
{
    let links = parent_links(g);
    if !done.contains(id) && g.dom().contains(id) {
        let next = done.push(id);
        assert forall|x: Seq<u8>| #[trigger] next.contains(x) implies crate::reach::reaches(
            links,
            set![root],
            x,
        ) by {
            let k = choose|k: int| 0 <= k < next.len() && next[k] == x;
            if k < done.len() {
                assert(done[k] == x);
                assert(done.contains(x));
            }
        }
        if g[id].parents.len() > 0 {
            let p = g[id].parents;
            assert(crate::reach::targets(links, id) == p);
            assert(p.contains(p[0]));
            crate::reach::lemma_target_reached(links, set![root], id, p[0]);
            lemma_unseen_shrinks(g, id, done);
            lemma_chain_reached(g, root, p[0], next);
        }
    }
}

/// The number of first-parent steps from `id` to a commit without parents;
/// none where the chain is broken or runs in a circle.
pub open spec fn generation_of(g: Graph, id: Seq<u8>) -> Option<nat> {
    match chain(g, id) {
        Ok(c) => if c.len() > 0 && g[c.last()].parents.len() == 0 {
            Some((c.len() - 1) as nat)
        } else {
            None
        },
        Err(_) => None,
    }
}

proof fn lemma_chain_held(g: Graph, id: Seq<u8>, done: Seq<Seq<u8>>)
    requires
        g.dom().finite(),
        forall|i: int| 0 <= i < done.len() ==> g.dom().contains(#[trigger] done[i]),
    ensures
        first_parents(g, id, done) matches Ok(c) ==> {
            &&& c.len() >= done.len()
            &&& c.take(done.len() as int) == done
            &&& done.len() == 0 ==> c.len() > 0 && c[0] == id
            &&& forall|i: int| 0 <= i < c.len() ==> g.dom().contains(#[trigger] c[i])
        },
    decreases g.dom().difference(done.to_set()).len(),
{
    if done.contains(id) {
        assert(done.take(done.len() as int) =~= done);
    } else if !g.dom().contains(id) {
    } else if g[id].parents.len() == 0 {
        let c = done.push(id);
        assert(c.take(done.len() as int) =~= done);
    } else {
        let next = done.push(id);
        lemma_unseen_shrinks(g, id, done);
        lemma_chain_held(g, g[id].parents[0], next);
        if let Ok(c) = first_parents(g, id, done) {
            assert(c.take(done.len() as int) =~= c.take(next.len() as int).take(done.len() as int));
            assert(next.take(done.len() as int) =~= done);
            assert(c[done.len() as int] == c.take(next.len() as int)[done.len() as int]);
        }
    }
}

/// The number of first-parent steps from `id` to a commit without parents.
fn generation<S: CommitStore>(store: &S, id: CommitId) -> (r: Option<usize>)
    ensures
        match generation_of(store.commits(), id@) {
            Some(n) => r matches Some(k) && k == n,
            None => r is None,
        },
{
    let ghost g = store.commits();
    proof {
        store.commits_finite();
        lemma_chain_held(g, id@, seq![]);
    }
    match ancestors(store, id) {
        Ok(c) => {
            let n: usize = c.len();
            assert(c.deep_view().last() == c@[n - 1]@);
            match store.get_commit(&c[n - 1]) {
                Some(commit) => {
                    if commit.parents.len() == 0 {
                        Some(n - 1)
                    } else {
                        None
                    }
                },
                None => None,
            }
        },
        Err(_) => None,
    }
}

/// The first id of `a` that is in `b`.
pub open spec fn first_common(a: Seq<Seq<u8>>, b: Seq<Seq<u8>>) -> Option<Seq<u8>>
    decreases a.len(),
{
    if a.len() == 0 {
        None
    } else if b.contains(a[0]) {
        Some(a[0])
    } else {
        first_common(a.drop_first(), b)
    }
}

/// The first commit on the first-parent chain of `a` that is also on that of
/// `b`, none for unrelated histories; a chain without a root is an error.
pub open spec fn merge_base_of(g: Graph, a: Seq<u8>, b: Seq<u8>) -> Result<
    Option<Seq<u8>>,
    VersionError<Seq<char>>,
> {
    if generation_of(g, a) is None {
        Err(missing(a))
    } else if generation_of(g, b) is None {
        Err(missing(b))
    } else {
        Ok(first_common(chain(g, a)->Ok_0, chain(g, b)->Ok_0))
    }
}

/// The nearest commit that two first-parent histories share.
pub fn merge_base<S: CommitStore>(store: &S, a: CommitId, b: CommitId) -> (r: VersionResult<
    Option<CommitId>,
>)
    ensures
        crate::model::outcome(r) == merge_base_of(store.commits(), a@, b@),
{
    if generation(store, a).is_none() {
        return Err(VersionError::CommitNotFound(a.to_hex()));
    }
    if generation(store, b).is_none() {
        return Err(VersionError::CommitNotFound(b.to_hex()));
    }
    let chain_a = match ancestors(store, a) {
        Ok(c) => c,
        Err(e) => {
            return Err(e);
        },
    };
    let chain_b = match ancestors(store, b) {
        Ok(c) => c,
        Err(e) => {
            return Err(e);
        },
    };
    let ghost x = chain_a.deep_view();
    let ghost y = chain_b.deep_view();
    let mut i: usize = 0;
    assert(x.skip(0) =~= x);
    while i < chain_a.len()
        invariant
            i <= chain_a@.len(),
            x == chain_a.deep_view(),
            y == chain_b.deep_view(),
            first_common(x.skip(i as int), y) == first_common(x, y),
            merge_base_of(store.commits(), a@, b@) == Ok::<
                Option<Seq<u8>>,
                VersionError<Seq<char>>,
            >(first_common(x, y)),
        decreases chain_a.len() - i,
    {
        assert(x.skip(i as int)[0] == chain_a@[i as int]@);
        assert(x.skip(i as int).drop_first() =~= x.skip(i + 1));
        if has_id(&chain_b, &chain_a[i]) {
            return Ok(Some(chain_a[i]));
        }
        i = i + 1;
    }
    assert(x.skip(i as int) =~= seq![]);
    Ok(None)
}

proof fn lemma_first_common(a: Seq<Seq<u8>>, b: Seq<Seq<u8>>)
    ensures
        match first_common(a, b) {
            Some(x) => exists|i: int|
                0 <= i < a.len() && #[trigger] a[i] == x && b.contains(x) && forall|j: int|
                    0 <= j < i ==> !b.contains(#[trigger] a[j]),
            None => forall|j: int| 0 <= j < a.len() ==> !b.contains(#[trigger] a[j]),
        },
    decreases a.len(),
{
    if a.len() > 0 && !b.contains(a[0]) {
        let t = a.drop_first();
        lemma_first_common(t, b);
        match first_common(t, b) {
            Some(x) => {
                let i = choose|i: int|
                    0 <= i < t.len() && #[trigger] t[i] == x && b.contains(x) && forall|j: int|
                        0 <= j < i ==> !b.contains(#[trigger] t[j]);
                assert(a[i + 1] == x);
                assert forall|j: int| 0 <= j < i + 1 implies !b.contains(#[trigger] a[j]) by {
                    if j > 0 {
                        assert(a[j] == t[j - 1]);
                    }
                }
            },
            None => {
                assert forall|j: int| 0 <= j < a.len() implies !b.contains(#[trigger] a[j]) by {
                    if j > 0 {
                        assert(a[j] == t[j - 1]);
                    }
                }
            },
        }
    } else if a.len() > 0 {
        assert(a[0] == a[0]);
    }
}

/// Each step of a chain goes to the first parent.
proof fn lemma_chain_steps(g: Graph, id: Seq<u8>, done: Seq<Seq<u8>>)
    requires
        g.dom().finite(),
        forall|i: int| 0 <= i < done.len() ==> g.dom().contains(#[trigger] done[i]),
        forall|i: int, j: int| 0 <= i < j < done.len() ==> #[trigger] done[i] != #[trigger] done[j],
        forall|i: int|
            #![trigger done[i]]
            0 <= i < done.len() ==> g[done[i]].parents.len() > 0 && g[done[i]].parents[0] == (if i
                + 1 < done.len() {
                done[i + 1]
            } else {
                id
            }),
    ensures
        first_parents(g, id, done) matches Ok(c) ==> {
            &&& forall|i: int, j: int| 0 <= i < j < c.len() ==> #[trigger] c[i] != #[trigger] c[j]
            &&& forall|i: int|
                #![trigger c[i]]
                0 <= i < c.len() - 1 ==> g[c[i]].parents.len() > 0 && g[c[i]].parents[0] == c[i + 1]
        },
    decreases g.dom().difference(done.to_set()).len(),
{
    if !done.contains(id) && g.dom().contains(id) && g[id].parents.len() > 0 {
        let next = done.push(id);
        lemma_unseen_shrinks(g, id, done);
        assert forall|i: int, j: int| 0 <= i < j < next.len() implies #[trigger] next[i]
            != #[trigger] next[j] by {
            if j == done.len() {
                assert(done[i] == next[i]);
            } else {
                assert(done[i] == next[i] && done[j] == next[j]);
            }
        }
        assert forall|i: int|
            #![trigger next[i]]
            0 <= i < next.len() implies g[next[i]].parents.len() > 0 && g[next[i]].parents[0] == (if i
            + 1 < next.len() {
            next[i + 1]
        } else {
            g[id].parents[0]
        }) by {
            if i < done.len() {
                assert(done[i] == next[i]);
                if i + 1 < done.len() {
                    assert(done[i + 1] == next[i + 1]);
                }
            }
        }
        lemma_chain_steps(g, g[id].parents[0], next);
    } else if !done.contains(id) && g.dom().contains(id) {
        let c = done.push(id);
        assert forall|i: int, j: int| 0 <= i < j < c.len() implies #[trigger] c[i] != #[trigger] c[j] by {
            if j == done.len() {
                assert(done[i] == c[i]);
            } else {
                assert(done[i] == c[i] && done[j] == c[j]);
            }
        }
        assert forall|i: int|
            #![trigger c[i]]
            0 <= i < c.len() - 1 implies g[c[i]].parents.len() > 0 && g[c[i]].parents[0] == c[i
            + 1] by {
            assert(done[i] == c[i]);
            if i + 1 < done.len() {
                assert(done[i + 1] == c[i + 1]);
            }
        }
    } else {
        assert forall|i: int|
            #![trigger done[i]]
            0 <= i < done.len() - 1 implies g[done[i]].parents.len() > 0 && g[done[i]].parents[0]
            == done[i + 1] by {}
    }
}

/// The rest of a rooted chain behind one of its members is that member's own
/// chain, so its generation is the number of steps left.
proof fn lemma_suffix_chain(g: Graph, c: Seq<Seq<u8>>, k: int, done: Seq<Seq<u8>>)
    requires
        g.dom().finite(),
        0 <= k < c.len(),
        forall|i: int| 0 <= i < c.len() ==> g.dom().contains(#[trigger] c[i]),
        forall|i: int, j: int| 0 <= i < j < c.len() ==> #[trigger] c[i] != #[trigger] c[j],
        forall|i: int|
            #![trigger c[i]]
            0 <= i < c.len() - 1 ==> g[c[i]].parents.len() > 0 && g[c[i]].parents[0] == c[i + 1],
        g[c.last()].parents.len() == 0,
        forall|i: int| 0 <= i < done.len() ==> exists|j: int| 0 <= j < k && c[j] == #[trigger] done[i],
    ensures
        first_parents(g, c[k], done) == Ok::<Seq<Seq<u8>>, Seq<u8>>(done + c.skip(k)),
    decreases c.len() - k,
{
    if done.contains(c[k]) {
        let i = choose|i: int| 0 <= i < done.len() && done[i] == c[k];
        let j = choose|j: int| 0 <= j < k && c[j] == done[i];
        assert(c[j] != c[k]);
    }
    assert(g.dom().contains(c[k]));
    if k == c.len() - 1 {
        assert(done.push(c[k]) =~= done + c.skip(k));
    } else {
        let next = done.push(c[k]);
        assert forall|i: int| 0 <= i < next.len() implies exists|j: int|
            0 <= j < k + 1 && c[j] == #[trigger] next[i] by {
            if i < done.len() {
                assert(next[i] == done[i]);
                let j = choose|j: int| 0 <= j < k && c[j] == done[i];
                assert(0 <= j < k + 1 && c[j] == next[i]);
            } else {
                assert(c[k] == next[i]);
            }
        }
        lemma_suffix_chain(g, c, k + 1, next);
        assert(next + c.skip(k + 1) =~= done + c.skip(k));
    }
}

/// The merge base is on both chains, and no commit on both chains has a higher
/// generation.
pub proof fn law_merge_base_is_highest(g: Graph, a: Seq<u8>, b: Seq<u8>, other: Seq<u8>)
    requires
        g.dom().finite(),
        merge_base_of(g, a, b) matches Ok(Some(_)),
        chain(g, a)->Ok_0.contains(other),
        chain(g, b)->Ok_0.contains(other),
    ensures
        ({
            let base = merge_base_of(g, a, b)->Ok_0->Some_0;
            &&& chain(g, a)->Ok_0.contains(base)
            &&& chain(g, b)->Ok_0.contains(base)
            &&& generation_of(g, other) is Some
            &&& generation_of(g, base) is Some
            &&& generation_of(g, other)->Some_0 <= generation_of(g, base)->Some_0
        }),
{
    let ca = chain(g, a)->Ok_0;
    let cb = chain(g, b)->Ok_0;
    let base = merge_base_of(g, a, b)->Ok_0->Some_0;
    lemma_chain_held(g, a, seq![]);
    lemma_chain_steps(g, a, seq![]);
    lemma_first_common(ca, cb);
    let i = choose|i: int|
        0 <= i < ca.len() && #[trigger] ca[i] == base && cb.contains(base) && forall|j: int|
            0 <= j < i ==> !cb.contains(#[trigger] ca[j]);
    let k = choose|k: int| 0 <= k < ca.len() && ca[k] == other;
    assert(i <= k);
    lemma_suffix_chain(g, ca, i, seq![]);
    lemma_suffix_chain(g, ca, k, seq![]);
    assert(seq![] + ca.skip(i) =~= ca.skip(i));
    assert(seq![] + ca.skip(k) =~= ca.skip(k));
    assert(ca.skip(i).last() == ca.last());
    assert(ca.skip(k).last() == ca.last());
}

/// A commit with a rooted history is its own merge base, and an ancestor of
/// itself.
pub proof fn law_merge_base_self(g: Graph, a: Seq<u8>)
    requires
        g.dom().finite(),
        generation_of(g, a) is Some,
    ensures
        merge_base_of(g, a, a) == Ok::<Option<Seq<u8>>, VersionError<Seq<char>>>(Some(a)),
        chain(g, a)->Ok_0.contains(a),
{
    lemma_chain_held(g, a, seq![]);
    let c = chain(g, a)->Ok_0;
    assert(c[0] == a);
}

// ---------------------------------------------------------------------------
// Revisions
// ---------------------------------------------------------------------------

/// The place of the parent that `^n` names among `len` parents: that of the `n`th, and
/// of the first for zero. A commit without parents lacks the first.
pub open spec fn parent_place(len: nat, n: u32) -> nat {
    if n == 0 || len == 0 {
        0
    } else {
        (n - 1) as nat
    }
}

/// The commit that a revision names. A range names its right end and a
/// symmetric difference the merge base of its ends.
pub open spec fn resolved(
    g: Graph,
    refs: Map<(RefNs, Seq<char>), Seq<u8>>,
    rev: Revision<Seq<char>>,
    staged: Option<Seq<u8>>,
    head: Option<Seq<u8>>,
) -> Result<Seq<u8>, VersionError<Seq<char>>>
    decreases rev,
{
    match rev {
        Revision::Head => match head {
            Some(id) => Ok(id),
            None => Err(VersionError::InvalidRevisionSpec("HEAD"@)),
        },
        Revision::Working | Revision::Staged => match staged {
            Some(id) => Ok(id),
            None => Err(VersionError::InvalidRevisionSpec("WORKING"@)),
        },
        Revision::Branch(name) => if refs.dom().contains((RefNs::Heads, name)) {
            Ok(refs[(RefNs::Heads, name)])
        } else if refs.dom().contains((RefNs::Tags, name)) {
            Ok(refs[(RefNs::Tags, name)])
        } else {
            Err(VersionError::BranchNotFound(name))
        },
        Revision::Tag(name) => if refs.dom().contains((RefNs::Tags, name)) {
            Ok(refs[(RefNs::Tags, name)])
        } else {
            Err(VersionError::TagNotFound(name))
        },
        Revision::Hash(hex) => if crate::model::names_id(hex) {
            Ok(crate::digest::hex_bytes(hex))
        } else {
            Err(VersionError::CommitNotFound(hex))
        },
        Revision::Ancestor(base, n) => match resolved(g, refs, *base, staged, head) {
            Err(e) => Err(e),
            Ok(id) => match ancestors_of(g, id) {
                Err(e) => Err(e),
                Ok(c) => if (n as nat) < c.len() {
                    Ok(c[n as int])
                } else {
                    Err(
                        VersionError::CommitNotFound(
                            crate::refs::revision_text(*base) + "~"@ + crate::text::decimal(
                                n as nat,
                            ),
                        ),
                    )
                },
            },
        },
        Revision::Parent(base, n) => match resolved(g, refs, *base, staged, head) {
            Err(e) => Err(e),
            Ok(id) => if !g.dom().contains(id) {
                Err(missing(id))
            } else if parent_place(g[id].parents.len(), n) < g[id].parents.len() {
                Ok(g[id].parents[parent_place(g[id].parents.len(), n) as int])
            } else {
                Err(
                    VersionError::CommitNotFound(
                        crate::refs::revision_text(*base) + "^"@ + crate::text::decimal(
                            parent_place(g[id].parents.len(), n) + 1,
                        ),
                    ),
                )
            },
        },
        Revision::Range(_, right) => resolved(g, refs, *right, staged, head),
        Revision::SymmetricDifference(left, right) => match resolved(
            g,
            refs,
            *left,
            staged,
            head,
        ) {
            Err(e) => Err(e),
            Ok(l) => match resolved(g, refs, *right, staged, head) {
                Err(e) => Err(e),
                Ok(r) => match merge_base_of(g, l, r) {
                    Err(e) => Err(e),
                    Ok(Some(id)) => Ok(id),
                    Ok(None) => Err(
                        VersionError::InvalidRevisionSpec(
                            crate::refs::revision_text(*left) + "..."@ + crate::refs::revision_text(
                                *right,
                            ),
                        ),
                    ),
                },
            },
        },
    }
}

/// Resolve a revision to a commit.
pub fn resolve_revision<S: CommitStore, R: RefStore>(
    store: &S,
    refs: &R,
    revision: &Revision,
    staged: Option<CommitId>,
    head: Option<CommitId>,
) -> (r: VersionResult<CommitId>)
    ensures
        crate::model::outcome(r) == resolved(
            store.commits(),
            refs.refs(),
            revision.deep_view(),
            staged.deep_view(),
            head.deep_view(),
        ),
    decreases revision,
{
    match revision {
        Revision::Head => match head {
            Some(id) => Ok(id),
            None => Err(VersionError::InvalidRevisionSpec("HEAD".to_owned())),
        },
        Revision::Working | Revision::Staged => match staged {
            Some(id) => Ok(id),
            None => Err(VersionError::InvalidRevisionSpec("WORKING".to_owned())),
        },
        Revision::Branch(name) => {
            if let Some(id) = refs.get(&RefName::branch(name.as_str())) {
                return Ok(id);
            }
            match refs.get(&RefName::tag(name.as_str())) {
                Some(id) => Ok(id),
                None => Err(VersionError::BranchNotFound(name.clone())),
            }
        },
        Revision::Tag(name) => match refs.get(&RefName::tag(name.as_str())) {
            Some(id) => Ok(id),
            None => Err(VersionError::TagNotFound(name.clone())),
        },
        Revision::Hash(hex) => CommitId::from_hex(hex.as_str()),
        Revision::Ancestor(base, n) => {
            let base_id = match resolve_revision(store, refs, base, staged, head) {
                Ok(id) => id,
                Err(e) => {
                    return Err(e);
                },
            };
            let c = match ancestors(store, base_id) {
                Ok(c) => c,
                Err(e) => {
                    return Err(e);
                },
            };
            if (*n as usize) < c.len() {
                assert(c.deep_view()[*n as int] == c@[*n as int]@);
                Ok(c[*n as usize])
            } else {
                let text = base.to_string();
                Err(
                    VersionError::CommitNotFound(
                        cat3(text.as_str(), "~", decimal_text(*n as u64).as_str()),
                    ),
                )
            }
        },
        Revision::Parent(base, n) => {
            let base_id = match resolve_revision(store, refs, base, staged, head) {
                Ok(id) => id,
                Err(e) => {
                    return Err(e);
                },
            };
            match store.get_commit(&base_id) {
                None => Err(VersionError::CommitNotFound(base_id.to_hex())),
                Some(commit) => {
                    let k: u32 = if *n == 0 || commit.parents.len() == 0 {
                        0
                    } else {
                        *n - 1
                    };
                    if (k as usize) < commit.parents.len() {
                        assert(commit.deep_view().parents[k as int] == commit.parents@[k as int]@);
                        Ok(commit.parents[k as usize])
                    } else {
                        let text = base.to_string();
                        Err(
                            VersionError::CommitNotFound(
                                cat3(text.as_str(), "^", decimal_text(k as u64 + 1).as_str()),
                            ),
                        )
                    }
                },
            }
        },
        Revision::Range(_, right) => resolve_revision(store, refs, right, staged, head),
        Revision::SymmetricDifference(left, right) => {
            let l = match resolve_revision(store, refs, left, staged, head) {
                Ok(id) => id,
                Err(e) => {
                    return Err(e);
                },
            };
            let r = match resolve_revision(store, refs, right, staged, head) {
                Ok(id) => id,
                Err(e) => {
                    return Err(e);
                },
            };
            match merge_base(store, l, r) {
                Err(e) => Err(e),
                Ok(Some(id)) => Ok(id),
                Ok(None) => {
                    let a = left.to_string();
                    let b = right.to_string();
                    Err(VersionError::InvalidRevisionSpec(cat3(a.as_str(), "...", b.as_str())))
                },
            }
        },
    }
}

/// The history of a commit starts with it, goes on from each commit to its first parent,
/// holds no commit twice, and ends where there is none left.
pub proof fn law_history_follows_first_parents(g: Graph, id: Seq<u8>, c: Seq<Seq<u8>>, i: int)
    requires
        g.dom().finite(),
        ancestors_of(g, id) == Ok::<Seq<Seq<u8>>, VersionError<Seq<char>>>(c),
        0 <= i < c.len(),
    ensures
        c[0] == id,
        g.dom().contains(c[i]),
        i + 1 < c.len() ==> g[c[i]].parents.len() > 0 && c[i + 1] == g[c[i]].parents[0],
        forall|j: int| 0 <= j < i ==> c[j] != c[i],
        generation_of(g, id) is Some ==> g[c.last()].parents.len() == 0,
{
    lemma_chain_held(g, id, seq![]);
    lemma_chain_steps(g, id, seq![]);
}

/// What revisions name: the head; a branch before a tag of the same name; a tag; `~0` the
/// commit itself and `~n` the first parent of `~(n-1)`; `^1` and `^0` the first parent and
/// `^n` the `n`th; a range its right end, and a symmetric difference the merge base.
pub proof fn law_revisions_name_commits(
    g: Graph,
    refs: Map<(RefNs, Seq<char>), Seq<u8>>,
    staged: Option<Seq<u8>>,
    head: Option<Seq<u8>>,
    base: Revision<Seq<char>>,
    other: Revision<Seq<char>>,
    name: Seq<char>,
    id: Seq<u8>,
    n: u32,
)
    requires
        g.dom().finite(),
        resolved(g, refs, base, staged, head) == Ok::<Seq<u8>, VersionError<Seq<char>>>(id),
        0 < n,
    ensures
        head matches Some(h) ==> resolved(g, refs, Revision::Head, staged, head) == Ok::<
            Seq<u8>,
            VersionError<Seq<char>>,
        >(h),
        refs.dom().contains((RefNs::Heads, name)) ==> resolved(
            g,
            refs,
            Revision::Branch(name),
            staged,
            head,
        ) == Ok::<Seq<u8>, VersionError<Seq<char>>>(refs[(RefNs::Heads, name)]),
        !refs.dom().contains((RefNs::Heads, name)) && refs.dom().contains((RefNs::Tags, name))
            ==> resolved(g, refs, Revision::Branch(name), staged, head) == Ok::<
            Seq<u8>,
            VersionError<Seq<char>>,
        >(refs[(RefNs::Tags, name)]),
        resolved(g, refs, Revision::Branch(name), staged, head) is Err <==> !refs.dom().contains(
            (RefNs::Heads, name),
        ) && !refs.dom().contains((RefNs::Tags, name)),
        refs.dom().contains((RefNs::Tags, name)) ==> resolved(
            g,
            refs,
            Revision::Tag(name),
            staged,
            head,
        ) == Ok::<Seq<u8>, VersionError<Seq<char>>>(refs[(RefNs::Tags, name)]),
        ancestors_of(g, id) is Ok ==> resolved(
            g,
            refs,
            Revision::Ancestor(Box::new(base), 0),
            staged,
            head,
        ) == Ok::<Seq<u8>, VersionError<Seq<char>>>(id),
        resolved(g, refs, Revision::Ancestor(Box::new(base), n), staged, head) matches Ok(x) ==> {
            let y = resolved(
                g,
                refs,
                Revision::Ancestor(Box::new(base), (n - 1) as u32),
                staged,
                head,
            );
            &&& y is Ok
            &&& g.dom().contains(y->Ok_0)
            &&& g[y->Ok_0].parents.len() > 0
            &&& g[y->Ok_0].parents[0] == x
        },
        g.dom().contains(id) && n <= g[id].parents.len() ==> resolved(
            g,
            refs,
            Revision::Parent(Box::new(base), n),
            staged,
            head,
        ) == Ok::<Seq<u8>, VersionError<Seq<char>>>(g[id].parents[n - 1]),
        g.dom().contains(id) && n > g[id].parents.len() ==> resolved(
            g,
            refs,
            Revision::Parent(Box::new(base), n),
            staged,
            head,
        ) is Err,
        g.dom().contains(id) && g[id].parents.len() > 0 ==> resolved(
            g,
            refs,
            Revision::Parent(Box::new(base), 0),
            staged,
            head,
        ) == Ok::<Seq<u8>, VersionError<Seq<char>>>(g[id].parents[0]),
        resolved(
            g,
            refs,
            Revision::Range(Box::new(other), Box::new(base)),
            staged,
            head,
        ) == Ok::<Seq<u8>, VersionError<Seq<char>>>(id),
        resolved(g, refs, other, staged, head) matches Ok(o) ==> (merge_base_of(g, id, o) matches
            Ok(Some(m)) ==> resolved(
            g,
            refs,
            Revision::SymmetricDifference(Box::new(base), Box::new(other)),
            staged,
            head,
        ) == Ok::<Seq<u8>, VersionError<Seq<char>>>(m)),
{
    if let Ok(c) = ancestors_of(g, id) {
        lemma_chain_held(g, id, seq![]);
        lemma_chain_steps(g, id, seq![]);
        if n < c.len() {
            assert(g[c[n - 1]].parents[0] == c[n - 1 + 1]);
        }
    }
}

/// The merge base is the first commit of one history, from its tip on, that is in the other;
/// histories that share no commit have none.
pub proof fn law_merge_base_is_nearest(g: Graph, a: Seq<u8>, b: Seq<u8>, base: Option<Seq<u8>>)
    requires
        merge_base_of(g, a, b) == Ok::<Option<Seq<u8>>, VersionError<Seq<char>>>(base),
    ensures
        ({
            let ca = chain(g, a)->Ok_0;
            let cb = chain(g, b)->Ok_0;
            &&& chain(g, a) is Ok && chain(g, b) is Ok
            &&& match base {
                Some(m) => exists|i: int|
                    0 <= i < ca.len() && #[trigger] ca[i] == m && cb.contains(m) && forall|j: int|
                        0 <= j < i ==> !cb.contains(#[trigger] ca[j]),
                None => forall|i: int| 0 <= i < ca.len() ==> !cb.contains(#[trigger] ca[i]),
            }
        }),
{
    lemma_first_common(chain(g, a)->Ok_0, chain(g, b)->Ok_0);
}

} // verus!
