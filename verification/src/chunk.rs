//! Content-defined chunking, the tree-node codec and ordered byte maps.

use vstd::prelude::*;

use crate::digest::blake3_of;
use crate::model::{array20, ChunkHash, NodeFlags, StoreError};
use crate::octets::{bytes_order, cut, push_all, push_be16, push_be32, read_le, Order};
use crate::reader::Reader;

verus! {

broadcast use crate::text::lemma_bytes_deep_view;

pub const PRIME1: u32 = 0x9E3779B1;

pub const PRIME2: u32 = 0x85EBCA77;

pub const PRIME3: u32 = 0xC2B2AE3D;

pub const PRIME4: u32 = 0x27D4EB2F;

pub const PRIME5: u32 = 0x165667B1;

/// The content address of `data`: its BLAKE3 hash cut to twenty bytes.
pub open spec fn chunk_address(data: Seq<u8>) -> Seq<u8> {
    crate::digest::blake3_digest(data).take(20)
}

/// The content address of `data`.
pub fn blake3_chunk_hash(data: &[u8]) -> (r: ChunkHash)
    ensures
        r@ == chunk_address(data@),
{
    let full = blake3_of(data);
    let r = ChunkHash(array20(vstd::array::array_as_slice(&full), 0));
    assert(full@.subrange(0, 20) =~= full@.take(20));
    r
}

/// One hash in `2^level` falls below this bound; at level 0 none does.
pub open spec fn split_bound(level: u32) -> u32 {
    if level == 0 {
        0
    } else {
        1u32 << ((32 - level) as u32)
    }
}

/// Does a boundary hash split at `level`?
pub fn split_decision(hash32: u32, level: u32) -> (r: bool)
    requires
        level <= 32,
    ensures
        r == (hash32 < split_bound(level)),
{
    let threshold: u32 = if level == 0 {
        0
    } else {
        1u32 << (32 - level)
    };
    hash32 < threshold
}

// ---------------------------------------------------------------------------
// xxHash32
// ---------------------------------------------------------------------------

/// `x` rotated left by `r` bits.
pub open spec fn rotl(x: u32, r: u32) -> u32 {
    (x << r) | (x >> ((32 - r) as u32))
}

fn rotate(x: u32, r: u32) -> (y: u32)
    requires
        0 < r < 32,
    ensures
        y == rotl(x, r),
{
    (x << r) | (x >> (32 - r))
}

/// The four bytes at `i` as a number, least significant byte first.
pub open spec fn word_at(d: Seq<u8>, i: int) -> u32 {
    crate::octets::le_value(d.subrange(i, i + 4)) as u32
}

fn word(d: &[u8], i: usize) -> (w: u32)
    requires
        i + 4 <= d.len(),
    ensures
        w == word_at(d@, i as int),
{
    proof {
        crate::octets::lemma_radix();
    }
    read_le(d, i, 4) as u32
}

/// One accumulator step of the sixteen-byte blocks.
pub open spec fn xx_round(acc: u32, input: u32) -> u32 {
    rotl(acc.wrapping_add(input.wrapping_mul(PRIME2)), 13).wrapping_mul(PRIME1)
}

fn round(acc: u32, input: u32) -> (r: u32)
    ensures
        r == xx_round(acc, input),
{
    rotate(acc.wrapping_add(input.wrapping_mul(PRIME2)), 13).wrapping_mul(PRIME1)
}

/// Accumulator `lane` (0 to 3), started at `init`, after `blocks` blocks.
pub open spec fn xx_lane(d: Seq<u8>, init: u32, lane: int, blocks: nat) -> u32
    decreases blocks,
{
    if blocks == 0 {
        init
    } else {
        xx_round(
            xx_lane(d, init, lane, (blocks - 1) as nat),
            word_at(d, 16 * (blocks - 1) + 4 * lane),
        )
    }
}

/// The state after all whole sixteen-byte blocks.
pub open spec fn xx_blocks(d: Seq<u8>, seed: u32) -> u32 {
    let n = d.len() / 16;
    if d.len() >= 16 {
        rotl(xx_lane(d, seed.wrapping_add(PRIME1).wrapping_add(PRIME2), 0, n), 1).wrapping_add(
            rotl(xx_lane(d, seed.wrapping_add(PRIME2), 1, n), 7),
        ).wrapping_add(rotl(xx_lane(d, seed, 2, n), 12)).wrapping_add(
            rotl(xx_lane(d, seed.wrapping_sub(PRIME1), 3, n), 18),
        )
    } else {
        seed.wrapping_add(PRIME5)
    }
}

/// Fold the single bytes from `i` to the end.
pub open spec fn xx_bytes(d: Seq<u8>, h: u32, i: int) -> u32
    decreases d.len() - i,
{
    if i >= d.len() {
        h
    } else {
        xx_bytes(
            d,
            rotl(h.wrapping_add((d[i] as u32).wrapping_mul(PRIME5)), 11).wrapping_mul(PRIME1),
            i + 1,
        )
    }
}

/// Fold the four-byte words from `i`, then the bytes left over.
pub open spec fn xx_words(d: Seq<u8>, h: u32, i: int) -> u32
    decreases d.len() - i,
{
    if i + 4 > d.len() {
        xx_bytes(d, h, i)
    } else {
        xx_words(
            d,
            rotl(h.wrapping_add(word_at(d, i).wrapping_mul(PRIME3)), 17).wrapping_mul(PRIME4),
            i + 4,
        )
    }
}

/// The final mixing of the bits.
pub open spec fn xx_mix(h: u32) -> u32 {
    let a = (h ^ (h >> 15)).wrapping_mul(PRIME2);
    let b = (a ^ (a >> 13)).wrapping_mul(PRIME3);
    b ^ (b >> 16)
}

/// The 32-bit xxHash of `d`.
#[verifier::opaque]
pub open spec fn xxh32(d: Seq<u8>, seed: u32) -> u32 {
    xx_mix(
        xx_words(
            d,
            xx_blocks(d, seed).wrapping_add(d.len() as u32),
            (16 * (d.len() / 16)) as int,
        ),
    )
}

/// The 32-bit xxHash of `data`.
pub fn xxhash32(data: &[u8], seed: u32) -> (r: u32)
    ensures
        r == xxh32(data@, seed),
{
    let len: usize = data.len();
    let mut h32: u32;
    let mut index: usize = 0;
    let ghost d = data@;
    proof {
        reveal(xxh32);
    }
    if len >= 16 {
        let mut v1: u32 = seed.wrapping_add(PRIME1).wrapping_add(PRIME2);
        let mut v2: u32 = seed.wrapping_add(PRIME2);
        let mut v3: u32 = seed;
        let mut v4: u32 = seed.wrapping_sub(PRIME1);
        let ghost (s1, s2, s3, s4) = (v1, v2, v3, v4);
        let ghost mut k: nat = 0;
        while len - index >= 16
            invariant
                len == data@.len(),
                d == data@,
                index == 16 * k,
                index <= len,
                v1 == xx_lane(d, s1, 0, k),
                v2 == xx_lane(d, s2, 1, k),
                v3 == xx_lane(d, s3, 2, k),
                v4 == xx_lane(d, s4, 3, k),
            decreases len - index,
        {
            v1 = round(v1, word(data, index));
            v2 = round(v2, word(data, index + 4));
            v3 = round(v3, word(data, index + 8));
            v4 = round(v4, word(data, index + 12));
            index = index + 16;
            proof {
                k = k + 1;
            }
        }
        assert(k == d.len() / 16);
        h32 = rotate(v1, 1).wrapping_add(rotate(v2, 7)).wrapping_add(rotate(v3, 12)).wrapping_add(
            rotate(v4, 18),
        );
    } else {
        h32 = seed.wrapping_add(PRIME5);
    }
    h32 = h32.wrapping_add(len as u32);
    let ghost start = h32;
    let ghost from = index as int;
    while len - index >= 4
        invariant
            len == data@.len(),
            d == data@,
            index <= len,
            xx_words(d, h32, index as int) == xx_words(d, start, from),
        decreases len - index,
    {
        h32 = rotate(h32.wrapping_add(word(data, index).wrapping_mul(PRIME3)), 17).wrapping_mul(
            PRIME4,
        );
        index = index + 4;
    }
    let ghost tail_start = h32;
    let ghost tail = index as int;
    while index < len
        invariant
            len == data@.len(),
            d == data@,
            index <= len,
            xx_bytes(d, h32, index as int) == xx_bytes(d, tail_start, tail),
        decreases len - index,
    {
        h32 = rotate(h32.wrapping_add((data[index] as u32).wrapping_mul(PRIME5)), 11).wrapping_mul(
            PRIME1,
        );
        index = index + 1;
    }
    let a: u32 = (h32 ^ (h32 >> 15)).wrapping_mul(PRIME2);
    let b: u32 = (a ^ (a >> 13)).wrapping_mul(PRIME3);
    b ^ (b >> 16)
}

// ---------------------------------------------------------------------------
// Content-defined chunking
// ---------------------------------------------------------------------------

/// A piece of content under its address.
#[derive(Debug, Clone)]
pub struct Chunk {
    pub hash: ChunkHash,
    pub data: Vec<u8>,
}

impl Chunk {
    /// Is the address that of the data?
    pub open spec fn wf(&self) -> bool {
        self.hash@ == chunk_address(self.data@)
    }
}

impl DeepView for Chunk {
    type V = Seq<u8>;

    open spec fn deep_view(&self) -> Seq<u8> {
        self.data@
    }
}

/// No chunk that `push` emits is shorter.
pub const CHUNK_MIN: usize = 512;

/// No chunk is longer.
pub const CHUNK_MAX: usize = 16384;

/// The bytes a boundary hash looks at.
pub const WINDOW: usize = 32;

/// Does a chunk of the pending bytes `p` end at `i`? It does where the window
/// at `i` hashes below the bound, and at the longest length in any case.
pub open spec fn boundary(p: Seq<u8>, level: u32, i: int) -> bool {
    i >= CHUNK_MAX || xxh32(p.subrange(i, i + WINDOW), 0) < split_bound(level)
}

/// The first boundary at or after `i` whose window lies in `p`; the longest
/// length where there is none.
pub open spec fn cut_from(p: Seq<u8>, level: u32, i: int) -> int
    decreases p.len() - i,
{
    if i + WINDOW > p.len() {
        CHUNK_MAX as int
    } else if boundary(p, level, i) {
        i
    } else {
        cut_from(p, level, i + 1)
    }
}

/// Where the next chunk of the pending bytes ends.
pub open spec fn cut_point(p: Seq<u8>, level: u32) -> int {
    cut_from(p, level, CHUNK_MIN as int)
}

/// A cut lies between its start and the longest length.
pub proof fn lemma_cut_from(p: Seq<u8>, level: u32, i: int)
    requires
        0 <= i <= CHUNK_MAX,
    ensures
        i <= cut_from(p, level, i) <= CHUNK_MAX,
    decreases p.len() - i,
{
    if i + WINDOW <= p.len() && !boundary(p, level, i) {
        lemma_cut_from(p, level, i + 1);
    }
}

/// The chunks cut so far, the pending bytes and the level.
pub struct ChunkerModel {
    pub chunks: Seq<Seq<u8>>,
    pub pending: Seq<u8>,
    pub level: u32,
}

/// Cut chunks while the pending bytes reach the longest length.
pub open spec fn cut_all(m: ChunkerModel) -> ChunkerModel
    decreases m.pending.len(),
{
    if m.pending.len() < CHUNK_MAX {
        m
    } else {
        let c = cut_point(m.pending, m.level);
        proof {
            lemma_cut_from(m.pending, m.level, CHUNK_MIN as int);
        }
        cut_all(cut_one(m))
    }
}

/// Cut one chunk off the pending bytes.
pub open spec fn cut_one(m: ChunkerModel) -> ChunkerModel {
    let c = cut_point(m.pending, m.level);
    ChunkerModel { chunks: m.chunks.push(m.pending.take(c)), pending: m.pending.skip(c), ..m }
}

/// Append `data` to the pending bytes and cut.
pub open spec fn push_bytes(m: ChunkerModel, data: Seq<u8>) -> ChunkerModel {
    cut_all(ChunkerModel { pending: m.pending + data, ..m })
}

/// All bytes of a sequence of pieces, in order.
pub open spec fn concat(pieces: Seq<Seq<u8>>) -> Seq<u8>
    decreases pieces.len(),
{
    if pieces.len() == 0 {
        seq![]
    } else {
        concat(pieces.drop_last()) + pieces.last()
    }
}

/// Every chunk that `push` emitted has a length within the limits.
pub open spec fn sizes_ok(chunks: Seq<Seq<u8>>) -> bool {
    forall|i: int| 0 <= i < chunks.len() ==> CHUNK_MIN <= (#[trigger] chunks[i]).len() <= CHUNK_MAX
}

/// Pushing loses, adds and reorders nothing.
pub proof fn law_push_keeps_bytes(m: ChunkerModel, data: Seq<u8>)
    ensures
        ({
            let r = push_bytes(m, data);
            concat(r.chunks) + r.pending == concat(m.chunks) + m.pending + data
        }),
{
    lemma_cut_all_keeps(ChunkerModel { pending: m.pending + data, ..m });
    assert(concat(m.chunks) + m.pending + data =~= concat(m.chunks) + (m.pending + data));
}

proof fn lemma_cut_all_keeps(m: ChunkerModel)
    ensures
        concat(cut_all(m).chunks) + cut_all(m).pending == concat(m.chunks) + m.pending,
    decreases m.pending.len(),
{
    if m.pending.len() >= CHUNK_MAX {
        lemma_cut_from(m.pending, m.level, CHUNK_MIN as int);
        let c = cut_point(m.pending, m.level);
        let n = cut_one(m);
        lemma_cut_all_keeps(n);
        assert(n.chunks.drop_last() =~= m.chunks);
        assert(concat(n.chunks) + n.pending =~= concat(m.chunks) + (m.pending.take(c)
            + m.pending.skip(c)));
        assert(m.pending.take(c) + m.pending.skip(c) =~= m.pending);
    }
}

/// Every chunk that pushing emits is within the limits, and fewer pending bytes
/// than the longest length are left.
pub proof fn law_push_sizes(m: ChunkerModel, data: Seq<u8>)
    requires
        sizes_ok(m.chunks),
    ensures
        sizes_ok(push_bytes(m, data).chunks),
        push_bytes(m, data).pending.len() < CHUNK_MAX,
{
    lemma_cut_all_sizes(ChunkerModel { pending: m.pending + data, ..m });
}

proof fn lemma_cut_all_sizes(m: ChunkerModel)
    requires
        sizes_ok(m.chunks),
    ensures
        sizes_ok(cut_all(m).chunks),
        cut_all(m).pending.len() < CHUNK_MAX,
        cut_all(m).level == m.level,
    decreases m.pending.len(),
{
    if m.pending.len() >= CHUNK_MAX {
        lemma_cut_from(m.pending, m.level, CHUNK_MIN as int);
        let n = cut_one(m);
        assert forall|i: int| 0 <= i < n.chunks.len() implies CHUNK_MIN <= (
        #[trigger] n.chunks[i]).len() <= CHUNK_MAX by {
            if i < m.chunks.len() {
                assert(n.chunks[i] == m.chunks[i]);
            }
        }
        lemma_cut_all_sizes(n);
    }
}

/// Is the next cut of `p` decided with the windows of all its candidate
/// boundaries in sight?
pub open spec fn cut_in_sight(p: Seq<u8>, level: u32) -> bool {
    cut_point(p, level) + WINDOW <= p.len() || p.len() >= CHUNK_MAX + WINDOW - 1
}

/// Bytes behind `p` do not move a cut whose windows are in sight.
proof fn lemma_cut_stable(p: Seq<u8>, more: Seq<u8>, level: u32, i: int)
    requires
        cut_from(p, level, i) + WINDOW <= p.len() || p.len() >= CHUNK_MAX + WINDOW - 1,
        0 <= i <= CHUNK_MAX,
    ensures
        cut_from(p + more, level, i) == cut_from(p, level, i),
    decreases CHUNK_MAX - i,
{
    lemma_cut_from(p, level, i);
    if i + WINDOW <= p.len() {
        assert((p + more).subrange(i, i + WINDOW) =~= p.subrange(i, i + WINDOW));
        if i < CHUNK_MAX && !boundary(p, level, i) {
            lemma_cut_stable(p, more, level, i + 1);
        }
    }
}

/// Is every cut of the pending bytes decided with its windows in sight?
pub open spec fn cuts_in_sight(m: ChunkerModel) -> bool
    decreases m.pending.len(),
{
    if m.pending.len() < CHUNK_MAX {
        true
    } else {
        proof {
            lemma_cut_from(m.pending, m.level, CHUNK_MIN as int);
        }
        cut_in_sight(m.pending, m.level) && cuts_in_sight(cut_one(m))
    }
}

/// Pushing two pieces one after the other gives what pushing them at once
/// gives, where the first push decides every cut with its windows in sight.
pub proof fn law_split_push(m: ChunkerModel, a: Seq<u8>, b: Seq<u8>)
    requires
        cuts_in_sight(ChunkerModel { pending: m.pending + a, ..m }),
    ensures
        push_bytes(push_bytes(m, a), b) == push_bytes(m, a + b),
{
    lemma_split_cut(ChunkerModel { pending: m.pending + a, ..m }, b);
    assert(m.pending + (a + b) =~= m.pending + a + b);
}

proof fn lemma_split_cut(m: ChunkerModel, b: Seq<u8>)
    requires
        cuts_in_sight(m),
    ensures
        push_bytes(cut_all(m), b) == cut_all(ChunkerModel { pending: m.pending + b, ..m }),
    decreases m.pending.len(),
{
    if m.pending.len() >= CHUNK_MAX {
        let whole = ChunkerModel { pending: m.pending + b, ..m };
        lemma_cut_from(m.pending, m.level, CHUNK_MIN as int);
        lemma_cut_stable(m.pending, b, m.level, CHUNK_MIN as int);
        let c = cut_point(m.pending, m.level);
        let n = cut_one(m);
        lemma_split_cut(n, b);
        assert(whole.pending.take(c) =~= m.pending.take(c));
        assert(whole.pending.skip(c) =~= n.pending + b);
        assert(cut_one(whole) == ChunkerModel { pending: n.pending + b, ..n });
        assert(cut_all(whole) == cut_all(cut_one(whole)));
        assert(cut_all(m) == cut_all(n));
    }
}

/// The largest `r` with `2^r <= n`, for `n >= 1`.
pub open spec fn log2(n: nat) -> nat
    decreases n,
{
    if n < 2 {
        0
    } else {
        1 + log2(n / 2)
    }
}

/// Cuts a byte stream into chunks at boundaries that its content decides.
pub struct WeibullChunker {
    buffer: Vec<u8>,
    front: usize,
    chunks: Vec<Chunk>,
    level: u32,
}

impl View for WeibullChunker {
    type V = ChunkerModel;

    closed spec fn view(&self) -> ChunkerModel {
        ChunkerModel {
            chunks: self.chunks.deep_view(),
            pending: self.buffer@.skip(self.front as int),
            level: self.level,
        }
    }
}

impl Default for WeibullChunker {
    fn default() -> (r: Self)
        ensures
            r.wf(),
            r@ == (ChunkerModel { chunks: seq![], pending: seq![], level: 12 }),
    {
        Self::new()
    }
}

impl WeibullChunker {
    pub const MIN: usize = 512;

    pub const MAX: usize = 16384;

    pub const L: usize = 4096;

    /// The cursor lies in the buffer, the level is a level, and every chunk is
    /// under its own address.
    pub closed spec fn wf(&self) -> bool {
        &&& self.front <= self.buffer@.len()
        &&& self.level <= 32
        &&& forall|i: int| 0 <= i < self.chunks@.len() ==> (#[trigger] self.chunks@[i]).wf()
    }

    /// An empty chunker that splits one position in `2^level`.
    pub fn with_level(level: u32) -> (r: Self)
        requires
            level <= 32,
        ensures
            r.wf(),
            r@ == (ChunkerModel { chunks: seq![], pending: seq![], level }),
    {
        let r = WeibullChunker { buffer: Vec::new(), front: 0, chunks: Vec::new(), level };
        assert(r@.chunks =~= seq![]);
        assert(r@.pending =~= seq![]);
        r
    }

    /// The level whose expected chunk size is closest below `target`.
    fn level_for_target(target: usize) -> (r: u32)
        requires
            target >= 1,
        ensures
            r == log2(target as nat),
            r < 64,
    {
        let mut rest: usize = target;
        let mut r: u32 = 0;
        proof {
            lemma_log2_bound(target as nat);
        }
        while rest >= 2
            invariant
                r + log2(rest as nat) == log2(target as nat),
                log2(target as nat) < 64,
            decreases rest,
        {
            rest = rest / 2;
            r = r + 1;
        }
        r
    }

    /// An empty chunker for chunks of the nominal size.
    pub fn new() -> (r: Self)
        ensures
            r.wf(),
            r@ == (ChunkerModel { chunks: seq![], pending: seq![], level: 12 }),
    {
        proof {
            reveal_with_fuel(log2, 14);
        }
        Self::with_level(Self::level_for_target(4096))
    }

    /// Append `data` and cut every chunk that is complete.
    pub fn push(&mut self, data: &[u8])
        requires
            old(self).wf(),
        ensures
            final(self).wf(),
            final(self)@ == push_bytes(old(self)@, data@),
    {
        push_all(&mut self.buffer, data);
        assert(self@.pending =~= old(self)@.pending + data@);
        assert(self@ == (ChunkerModel { pending: old(self)@.pending + data@, ..old(self)@ }));
        while self.buffer.len() - self.front >= CHUNK_MAX
            invariant
                self.wf(),
                cut_all(self@) == push_bytes(old(self)@, data@),
            decreases self@.pending.len(),
        {
            proof {
                lemma_cut_from(self@.pending, self@.level, CHUNK_MIN as int);
            }
            self.split_at_level();
        }
    }

    /// The bytes not cut yet.
    pub fn remaining(&self) -> (r: &[u8])
        requires
            self.wf(),
        ensures
            r@ == self@.pending,
    {
        let r = vstd::slice::slice_subrange(self.buffer.as_slice(), self.front, self.buffer.len());
        assert(r@ =~= self@.pending);
        r
    }

    /// How many chunks `push` has emitted.
    pub fn push_emitted_len(&self) -> (r: usize)
        ensures
            r == self@.chunks.len(),
    {
        self.chunks.len()
    }

    /// All chunks; the pending bytes, if any, are the last one and may be short.
    pub fn finish(self) -> (r: Vec<Chunk>)
        requires
            self.wf(),
        ensures
            r.deep_view() == finished(self@),
            forall|i: int| 0 <= i < r@.len() ==> (#[trigger] r@[i]).wf(),
    {
        let mut chunks = self.chunks;
        if self.front < self.buffer.len() {
            let data = cut(self.buffer.as_slice(), self.front, self.buffer.len());
            assert(data@ =~= self@.pending);
            let hash = blake3_chunk_hash(data.as_slice());
            chunks.push(Chunk { hash, data });
        }
        assert(chunks.deep_view() =~= finished(self@));
        chunks
    }

    /// Cut one chunk.
    fn split_at_level(&mut self)
        requires
            old(self).wf(),
            old(self)@.pending.len() >= CHUNK_MAX,
        ensures
            final(self).wf(),
            final(self)@ == cut_one(old(self)@),
    {
        let start: usize = self.front;
        let limit: usize = self.buffer.len() - WINDOW;
        let mut i: usize = start + CHUNK_MIN;
        let mut found: bool = false;
        let ghost p = self@.pending;
        while i <= limit && !found
            invariant
                self.wf(),
                self@ == old(self)@,
                p == self@.pending,
                p == self.buffer@.skip(start as int),
                p.len() >= CHUNK_MAX,
                start == self.front,
                limit == self.buffer@.len() - WINDOW,
                start + CHUNK_MIN <= i <= limit + 1,
                cut_from(p, self.level, i - start) == cut_point(p, self.level),
                found ==> cut_point(p, self.level) == i - start,
            decreases limit - i + (if found { 0int } else { 1int }),
        {
            assert(p.subrange(i - start, i - start + WINDOW) =~= self.buffer@.subrange(
                i as int,
                i + WINDOW,
            ));
            assert(i + WINDOW <= self.buffer.len());
            if i - start >= CHUNK_MAX || split_decision(
                xxhash32(vstd::slice::slice_subrange(self.buffer.as_slice(), i, i + WINDOW), 0),
                self.level,
            ) {
                found = true;
            } else {
                i = i + 1;
            }
        }
        let end: usize = if found {
            i
        } else {
            start + CHUNK_MAX
        };
        proof {
            lemma_cut_from(p, self.level, CHUNK_MIN as int);
            assert(end - start == cut_point(p, self.level));
        }
        let data = cut(self.buffer.as_slice(), start, end);
        assert(data@ =~= p.take(end - start));
        let hash = blake3_chunk_hash(data.as_slice());
        self.chunks.push(Chunk { hash, data });
        self.front = end;
        assert(self.buffer@.skip(end as int) =~= p.skip(end - start));
        if self.front >= self.buffer.len() / 2 {
            let rest = self.buffer.split_off(self.front);
            assert(rest@ =~= self.buffer@.take(0) + p.skip(end - start));
            self.buffer = rest;
            self.front = 0;
        }
        assert(self@.pending =~= p.skip(end - start));
        assert(self@.chunks =~= old(self)@.chunks.push(p.take(end - start)));
    }
}

proof fn lemma_log2_bound(n: nat)
    requires
        n <= usize::MAX,
    ensures
        log2(n) < 64,
{
    vstd::arithmetic::power2::lemma2_to64();
    vstd::arithmetic::power2::lemma2_to64_rest();
    lemma_log2_below(n, 64);
}

proof fn lemma_log2_below(n: nat, k: nat)
    requires
        n < vstd::arithmetic::power2::pow2(k),
        k >= 1,
    ensures
        log2(n) < k,
    decreases k,
{
    if n >= 2 {
        vstd::arithmetic::power2::lemma2_to64();
        if k > 1 {
            vstd::arithmetic::power2::lemma_pow2_unfold(k);
            lemma_log2_below(n / 2, (k - 1) as nat);
        }
    }
}

/// What `finish` gives: the chunks, and the pending bytes where there are any.
pub open spec fn finished(m: ChunkerModel) -> Seq<Seq<u8>> {
    if m.pending.len() > 0 {
        m.chunks.push(m.pending)
    } else {
        m.chunks
    }
}

/// The finished chunks hold exactly the bytes that went in.
pub proof fn law_finish_keeps_bytes(m: ChunkerModel)
    ensures
        concat(finished(m)) == concat(m.chunks) + m.pending,
{
    if m.pending.len() > 0 {
        assert(finished(m).drop_last() =~= m.chunks);
    } else {
        assert(concat(m.chunks) + m.pending =~= concat(m.chunks));
    }
}

// ---------------------------------------------------------------------------
// Tree nodes
// ---------------------------------------------------------------------------

/// The most items a node holds.
pub const MAX_ITEMS: usize = 4096;

/// The first four bytes of an encoded node.
pub const NODE_MAGIC: u32 = 0x504E4F44;

/// A tree node: flags, two counters and keyed values.
#[derive(Debug, Clone)]
pub struct ProllyNode {
    pub flags: NodeFlags,
    pub counts: [u32; 2],
    pub items: Vec<(Vec<u8>, Vec<u8>)>,
}

/// The values of a node.
pub struct NodeModel {
    pub flags: u16,
    pub counts: Seq<u32>,
    pub items: Seq<(Seq<u8>, Seq<u8>)>,
}

impl DeepView for ProllyNode {
    type V = NodeModel;

    open spec fn deep_view(&self) -> NodeModel {
        NodeModel { flags: self.flags.0, counts: self.counts@, items: self.items.deep_view() }
    }
}

/// A piece of at most 65535 bytes behind its length in two bytes.
pub open spec fn framed(b: Seq<u8>) -> Seq<u8> {
    crate::octets::be_bytes(b.len(), 2) + b
}

/// The encoded items, in order.
pub open spec fn items_bytes(items: Seq<(Seq<u8>, Seq<u8>)>) -> Seq<u8>
    decreases items.len(),
{
    if items.len() == 0 {
        seq![]
    } else {
        framed(items[0].0) + framed(items[0].1) + items_bytes(items.drop_first())
    }
}

/// The encoding of a node.
pub open spec fn node_bytes(n: NodeModel) -> Seq<u8> {
    crate::octets::be_bytes(NODE_MAGIC as nat, 4) + (crate::octets::be_bytes(n.flags as nat, 2) + (
    crate::octets::be_bytes(n.items.len(), 2) + (crate::octets::be_bytes(n.counts[0] as nat, 4) + (
    crate::octets::be_bytes(n.counts[1] as nat, 4) + items_bytes(n.items)))))
}

/// Do the counts and lengths of a node fit their fields?
pub open spec fn node_fits(n: NodeModel) -> bool {
    &&& n.counts.len() == 2
    &&& n.items.len() <= MAX_ITEMS
    &&& forall|i: int|
        0 <= i < n.items.len() ==> (#[trigger] n.items[i]).0.len() <= 0xffff && n.items[i].1.len()
            <= 0xffff
}

/// Read one framed piece.
pub open spec fn read_framed(s: Seq<u8>) -> Option<(Seq<u8>, Seq<u8>)> {
    match crate::reader::read_be_n(s, 2) {
        Some((n, rest)) => crate::reader::split_n(rest, n),
        None => None,
    }
}

/// Read `count` items.
pub open spec fn read_items(s: Seq<u8>, count: nat) -> Option<
    (Seq<(Seq<u8>, Seq<u8>)>, Seq<u8>),
>
    decreases count,
{
    if count == 0 {
        Some((seq![], s))
    } else {
        match read_framed(s) {
            None => None,
            Some((k, s1)) => match read_framed(s1) {
                None => None,
                Some((v, s2)) => match read_items(s2, (count - 1) as nat) {
                    None => None,
                    Some((items, s3)) => Some((seq![(k, v)] + items, s3)),
                },
            },
        }
    }
}

/// Read a node that takes up all of `s`.
pub open spec fn read_node(s: Seq<u8>) -> Option<NodeModel> {
    if s.len() < 16 || crate::octets::be_value(s.subrange(0, 4)) != NODE_MAGIC {
        None
    } else {
        let count = crate::octets::be_value(s.subrange(6, 8));
        if count > MAX_ITEMS {
            None
        } else {
            match read_items(s.skip(16), count) {
                Some((items, rest)) => if rest.len() == 0 {
                    Some(
                        NodeModel {
                            flags: crate::octets::be_value(s.subrange(4, 6)) as u16,
                            counts: seq![
                                crate::octets::be_value(s.subrange(8, 12)) as u32,
                                crate::octets::be_value(s.subrange(12, 16)) as u32,
                            ],
                            items,
                        },
                    )
                } else {
                    None
                },
                None => None,
            }
        }
    }
}

proof fn lemma_read_framed(b: Seq<u8>, rest: Seq<u8>)
    requires
        b.len() <= 0xffff,
    ensures
        read_framed(framed(b) + rest) == Some((b, rest)),
{
    crate::octets::lemma_radix();
    crate::reader::lemma_read_be_n(b.len(), 2, b + rest);
    crate::reader::lemma_split_n(b, rest);
    assert(framed(b) + rest =~= crate::octets::be_bytes(b.len(), 2) + (b + rest));
}

proof fn lemma_read_items(items: Seq<(Seq<u8>, Seq<u8>)>, rest: Seq<u8>)
    requires
        forall|i: int|
            0 <= i < items.len() ==> (#[trigger] items[i]).0.len() <= 0xffff && items[i].1.len()
                <= 0xffff,
    ensures
        read_items(items_bytes(items) + rest, items.len()) == Some((items, rest)),
    decreases items.len(),
{
    if items.len() == 0 {
        assert(items_bytes(items) + rest =~= rest);
        assert(items =~= seq![]);
    } else {
        let t = items.drop_first();
        let (k, v) = items[0];
        lemma_read_items(t, rest);
        lemma_read_framed(v, items_bytes(t) + rest);
        lemma_read_framed(k, framed(v) + (items_bytes(t) + rest));
        assert(items_bytes(items) + rest =~= framed(k) + (framed(v) + (items_bytes(t) + rest)));
        assert(seq![(k, v)] + t =~= items);
    }
}

proof fn lemma_node_parts(
    a: Seq<u8>,
    b: Seq<u8>,
    c: Seq<u8>,
    d: Seq<u8>,
    e: Seq<u8>,
    t: Seq<u8>,
)
    requires
        a.len() == 4,
        b.len() == 2,
        c.len() == 2,
        d.len() == 4,
        e.len() == 4,
    ensures
        ({
            let s = a + (b + (c + (d + (e + t))));
            &&& s.len() >= 16
            &&& s.subrange(0, 4) == a
            &&& s.subrange(4, 6) == b
            &&& s.subrange(6, 8) == c
            &&& s.subrange(8, 12) == d
            &&& s.subrange(12, 16) == e
            &&& s.skip(16) == t
        }),
{
    let s = a + (b + (c + (d + (e + t))));
    assert(s.subrange(0, 4) =~= a);
    assert(s.subrange(4, 6) =~= b);
    assert(s.subrange(6, 8) =~= c);
    assert(s.subrange(8, 12) =~= d);
    assert(s.subrange(12, 16) =~= e);
    assert(s.skip(16) =~= t);
}

/// Parts that stand for the fields of a node read as that node.
proof fn lemma_parts_read(
    a: Seq<u8>,
    b: Seq<u8>,
    c: Seq<u8>,
    d: Seq<u8>,
    e: Seq<u8>,
    t: Seq<u8>,
    n: NodeModel,
)
    requires
        a.len() == 4,
        b.len() == 2,
        c.len() == 2,
        d.len() == 4,
        e.len() == 4,
        node_fits(n),
        crate::octets::be_value(a) == NODE_MAGIC,
        crate::octets::be_value(b) == n.flags,
        crate::octets::be_value(c) == n.items.len(),
        crate::octets::be_value(d) == n.counts[0],
        crate::octets::be_value(e) == n.counts[1],
        read_items(t, n.items.len()) == Some((n.items, Seq::<u8>::empty())),
    ensures
        read_node(a + (b + (c + (d + (e + t))))) == Some(n),
{
    lemma_node_parts(a, b, c, d, e, t);
    assert(seq![n.counts[0], n.counts[1]] =~= n.counts);
}

/// A node whose parts fit reads back from its encoding.
pub proof fn law_node_roundtrip(n: NodeModel)
    requires
        node_fits(n),
    ensures
        read_node(node_bytes(n)) == Some(n),
{
    let a = crate::octets::be_bytes(NODE_MAGIC as nat, 4);
    let b = crate::octets::be_bytes(n.flags as nat, 2);
    let c = crate::octets::be_bytes(n.items.len(), 2);
    let d = crate::octets::be_bytes(n.counts[0] as nat, 4);
    let e = crate::octets::be_bytes(n.counts[1] as nat, 4);
    let t = items_bytes(n.items);
    assert(a.len() == 4 && crate::octets::be_value(a) == NODE_MAGIC && b.len() == 2
        && crate::octets::be_value(b) == n.flags && c.len() == 2 && crate::octets::be_value(c)
        == n.items.len() && d.len() == 4 && crate::octets::be_value(d) == n.counts[0] && e.len()
        == 4 && crate::octets::be_value(e) == n.counts[1]) by {
        crate::octets::lemma_radix();
        crate::octets::lemma_be_roundtrip(NODE_MAGIC as nat, 4);
        crate::octets::lemma_be_roundtrip(n.flags as nat, 2);
        crate::octets::lemma_be_roundtrip(n.items.len(), 2);
        crate::octets::lemma_be_roundtrip(n.counts[0] as nat, 4);
        crate::octets::lemma_be_roundtrip(n.counts[1] as nat, 4);
    }
    assert(read_items(t, n.items.len()) == Some((n.items, Seq::<u8>::empty()))) by {
        lemma_read_items(n.items, seq![]);
        assert(t + seq![] =~= t);
    }
    lemma_parts_read(a, b, c, d, e, t, n);
}

proof fn lemma_framed_canonical(s: Seq<u8>)
    ensures
        read_framed(s) matches Some((b, rest)) ==> b.len() <= 0xffff && s == framed(b) + rest,
{
    if let Some((b, rest)) = read_framed(s) {
        crate::octets::lemma_radix();
        crate::reader::lemma_split_n_whole(s, 2);
        let head = s.take(2);
        let tail = s.skip(2);
        crate::octets::lemma_be_canonical(head);
        crate::reader::lemma_split_n_whole(tail, crate::octets::be_value(head));
        assert(s =~= framed(b) + rest);
    }
}

proof fn lemma_regroup(a: Seq<u8>, b: Seq<u8>, c: Seq<u8>, d: Seq<u8>)
    ensures
        a + b + c + d == a + (b + (c + d)),
{
    assert(a + b + c + d =~= a + (b + (c + d)));
}

proof fn lemma_items_canonical(s: Seq<u8>, count: nat)
    ensures
        read_items(s, count) matches Some((items, rest)) ==> items.len() == count && s
            == items_bytes(items) + rest && (forall|i: int|
            0 <= i < items.len() ==> (#[trigger] items[i]).0.len() <= 0xffff && items[i].1.len()
                <= 0xffff),
    decreases count,
{
    if count == 0 {
        assert(items_bytes(seq![]) + s =~= s);
    } else {
        lemma_framed_canonical(s);
        if let Some((k, s1)) = read_framed(s) {
            lemma_framed_canonical(s1);
            if let Some((v, s2)) = read_framed(s1) {
                lemma_items_canonical(s2, (count - 1) as nat);
                if let Some((t, s3)) = read_items(s2, (count - 1) as nat) {
                    let items = seq![(k, v)] + t;
                    assert(items.drop_first() =~= t);
                    lemma_regroup(framed(k), framed(v), items_bytes(t), s3);
                    assert(items_bytes(items) == framed(k) + framed(v) + items_bytes(t));
                    assert forall|i: int| 0 <= i < items.len() implies (#[trigger] items[i]).0.len()
                        <= 0xffff && items[i].1.len() <= 0xffff by {
                        if i > 0 {
                            assert(items[i] == t[i - 1]);
                        }
                    }
                }
            }
        }
    }
}

proof fn lemma_node_fields(s: Seq<u8>)
    requires
        s.len() >= 16,
    ensures
        s == s.subrange(0, 4) + (s.subrange(4, 6) + (s.subrange(6, 8) + (s.subrange(8, 12) + (
        s.subrange(12, 16) + s.skip(16))))),
{
    assert(s =~= s.subrange(0, 4) + (s.subrange(4, 6) + (s.subrange(6, 8) + (s.subrange(8, 12) + (
    s.subrange(12, 16) + s.skip(16))))));
}

/// A field is the bytes of its own value.
proof fn lemma_field(s: Seq<u8>, x: nat, n: nat)
    requires
        s.len() == n,
        crate::octets::be_value(s) == x,
    ensures
        crate::octets::be_bytes(x, n) == s,
        x < crate::octets::radix(n),
{
    crate::octets::lemma_be_canonical(s);
}

/// What reads as a node is the encoding of that node and fits.
pub proof fn law_node_canonical(s: Seq<u8>)
    ensures
        read_node(s) matches Some(n) ==> node_fits(n) && node_bytes(n) == s,
{
    if let Some(n) = read_node(s) {
        let a = s.subrange(0, 4);
        let b = s.subrange(4, 6);
        let c = s.subrange(6, 8);
        let d = s.subrange(8, 12);
        let e = s.subrange(12, 16);
        let t = s.skip(16);
        let count = crate::octets::be_value(c);
        crate::octets::lemma_radix();
        lemma_field(a, NODE_MAGIC as nat, 4);
        lemma_field(b, crate::octets::be_value(b), 2);
        lemma_field(c, count, 2);
        lemma_field(d, crate::octets::be_value(d), 4);
        lemma_field(e, crate::octets::be_value(e), 4);
        assert(n.items.len() == count && t == items_bytes(n.items) && node_fits(n)) by {
            lemma_items_canonical(t, count);
            let rest = read_items(t, count).unwrap().1;
            assert(items_bytes(n.items) + rest =~= items_bytes(n.items));
        }
        lemma_node_fields(s);
        assert(n.flags as nat == crate::octets::be_value(b));
        assert(n.counts[0] as nat == crate::octets::be_value(d));
        assert(n.counts[1] as nat == crate::octets::be_value(e));
    }
}

/// Append one framed piece.
fn push_framed(buf: &mut Vec<u8>, b: &Vec<u8>)
    requires
        b@.len() <= 0xffff,
    ensures
        final(buf)@ == old(buf)@ + framed(b@),
{
    push_be16(buf, b.len() as u16);
    push_all(buf, b.as_slice());
    assert(buf@ =~= old(buf)@ + framed(b@));
}

/// Take one framed piece.
fn take_framed(r: &mut Reader) -> (b: Option<Vec<u8>>)
    requires
        old(r).wf(),
    ensures
        final(r).wf(),
        match read_framed(old(r).rest()) {
            Some((head, rest)) => b matches Some(v) && v@ == head && final(r).rest() == rest,
            None => b is None,
        },
{
    match r.be16() {
        Some(n) => r.take(n as usize),
        None => None,
    }
}

impl ProllyNode {
    /// The encoded node.
    pub fn encode(&self) -> (r: Vec<u8>)
        requires
            node_fits(self.deep_view()),
        ensures
            r@ == node_bytes(self.deep_view()),
    {
        let mut buf: Vec<u8> = Vec::new();
        push_be32(&mut buf, NODE_MAGIC);
        push_be16(&mut buf, self.flags.0);
        push_be16(&mut buf, self.items.len() as u16);
        push_be32(&mut buf, self.counts[0]);
        push_be32(&mut buf, self.counts[1]);
        let ghost head = buf@;
        let ghost items = self.items.deep_view();
        let mut i: usize = 0;
        assert(items.skip(0) =~= items);
        while i < self.items.len()
            invariant
                i <= self.items@.len(),
                items == self.items.deep_view(),
                node_fits(self.deep_view()),
                buf@ + items_bytes(items.skip(i as int)) == head + items_bytes(items),
            decreases self.items.len() - i,
        {
            let ghost before = buf@;
            assert(items[i as int] == (self.items@[i as int].0@, self.items@[i as int].1@));
            push_framed(&mut buf, &self.items[i].0);
            push_framed(&mut buf, &self.items[i].1);
            proof {
                let t = items.skip(i as int);
                assert(t.drop_first() =~= items.skip(i + 1));
                assert(buf@ + items_bytes(items.skip(i + 1)) =~= before + items_bytes(t));
            }
            i = i + 1;
        }
        assert(items.skip(i as int) =~= seq![]);
        assert(buf@ =~= head + items_bytes(items));
        assert(buf@ =~= node_bytes(self.deep_view()));
        buf
    }

    /// Read an encoded node back. Anything that is not exactly one encoded node
    /// is refused.
    pub fn decode(buf: &[u8]) -> (r: Result<ProllyNode, StoreError>)
        ensures
            r is Ok <==> read_node(buf@) is Some,
            r matches Ok(n) ==> n.deep_view() == read_node(buf@).unwrap(),
            r matches Err(e) ==> e.deep_view() == StoreError::<Seq<char>>::BadNodeMagic,
    {
        if buf.len() < 16 {
            return Err(StoreError::BadNodeMagic);
        }
        let magic: u32 = crate::octets::read_be32(buf, 0);
        if magic != NODE_MAGIC {
            return Err(StoreError::BadNodeMagic);
        }
        let flags = NodeFlags(crate::octets::read_be16(buf, 4));
        let count: usize = crate::octets::read_be16(buf, 6) as usize;
        if count > MAX_ITEMS {
            return Err(StoreError::BadNodeMagic);
        }
        let counts: [u32; 2] = [crate::octets::read_be32(buf, 8), crate::octets::read_be32(buf, 12)];
        let mut items: Vec<(Vec<u8>, Vec<u8>)> = Vec::new();
        let mut r = Reader { data: buf, pos: 16 };
        let ghost start = r.rest();
        let mut i: usize = 0;
        assert(items.deep_view() =~= seq![]);
        assert(read_items(start, count as nat) == prepended(seq![], read_items(start, count as nat)))
            by {
            if let Some((t, rest)) = read_items(start, count as nat) {
                assert(seq![] + t =~= t);
            }
        }
        while i < count
            invariant
                i <= count,
                r.wf(),
                read_items(start, count as nat) == prepended(
                    items.deep_view(),
                    read_items(r.rest(), (count - i) as nat),
                ),
                start == buf@.skip(16),
                buf@.len() >= 16,
                crate::octets::be_value(buf@.subrange(6, 8)) == count,
                count <= MAX_ITEMS,
            decreases count - i,
        {
            let ghost before = items.deep_view();
            let ghost rest0 = r.rest();
            let key = match take_framed(&mut r) {
                Some(key) => key,
                None => {
                    return Err(StoreError::BadNodeMagic);
                },
            };
            let value = match take_framed(&mut r) {
                Some(value) => value,
                None => {
                    return Err(StoreError::BadNodeMagic);
                },
            };
            let ghost (k, v) = (key@, value@);
            items.push((key, value));
            proof {
                assert(items.deep_view() =~= before.push((k, v)));
                if let Some((t, rest)) = read_items(r.rest(), (count - i - 1) as nat) {
                    assert(before + (seq![(k, v)] + t) =~= before.push((k, v)) + t);
                }
            }
            i = i + 1;
        }
        proof {
            assert(items.deep_view() + seq![] =~= items.deep_view());
        }
        if !r.at_end() {
            return Err(StoreError::BadNodeMagic);
        }
        assert(counts@ =~= seq![
            crate::octets::be_value(buf@.subrange(8, 12)) as u32,
            crate::octets::be_value(buf@.subrange(12, 16)) as u32,
        ]);
        Ok(ProllyNode { flags, counts, items })
    }

    /// Does the node hold no item?
    pub fn is_empty(&self) -> (r: bool)
        ensures
            r == (self.deep_view().items.len() == 0),
    {
        self.items.len() == 0
    }
}

spec fn prepended(
    done: Seq<(Seq<u8>, Seq<u8>)>,
    r: Option<(Seq<(Seq<u8>, Seq<u8>)>, Seq<u8>)>,
) -> Option<(Seq<(Seq<u8>, Seq<u8>)>, Seq<u8>)> {
    match r {
        Some((t, rest)) => Some((done + t, rest)),
        None => None,
    }
}

/// Are the keys strictly increasing?
pub open spec fn keys_sorted(items: Seq<(Seq<u8>, Seq<u8>)>) -> bool {
    forall|i: int, j: int|
        0 <= i < j < items.len() ==> crate::octets::bytes_lt(
            (#[trigger] items[i]).0,
            (#[trigger] items[j]).0,
        )
}

/// Collects items in key order into a node.
pub struct Builder {
    items: Vec<(Vec<u8>, Vec<u8>)>,
}

impl View for Builder {
    type V = Seq<(Seq<u8>, Seq<u8>)>;

    closed spec fn view(&self) -> Seq<(Seq<u8>, Seq<u8>)> {
        self.items.deep_view()
    }
}

impl Default for Builder {
    fn default() -> (r: Self)
        ensures
            r.wf(),
            r@ == Seq::<(Seq<u8>, Seq<u8>)>::empty(),
    {
        Self::new()
    }
}

impl Builder {
    /// The keys increase strictly and there are not too many.
    pub open spec fn wf(&self) -> bool {
        keys_sorted(self@) && self@.len() <= MAX_ITEMS
    }

    pub fn new() -> (r: Self)
        ensures
            r.wf(),
            r@ == Seq::<(Seq<u8>, Seq<u8>)>::empty(),
    {
        let r = Builder { items: Vec::new() };
        assert(r@ =~= seq![]);
        r
    }

    /// Append an item. A key that does not come after the last one is refused,
    /// and so is an item too many.
    pub fn push(&mut self, key: Vec<u8>, value: Vec<u8>) -> (r: Result<(), StoreError>)
        requires
            old(self).wf(),
        ensures
            final(self).wf(),
            r is Ok <==> old(self)@.len() < MAX_ITEMS && (old(self)@.len() == 0
                || crate::octets::bytes_lt(old(self)@.last().0, key@)),
            r is Ok ==> final(self)@ == old(self)@.push((key@, value@)),
            r matches Err(e) ==> e.deep_view() == StoreError::<Seq<char>>::UnorderedInsert
                && final(self)@ == old(self)@,
    {
        let n: usize = self.items.len();
        if n >= MAX_ITEMS {
            return Err(StoreError::UnorderedInsert);
        }
        if n > 0 {
            assert(self@.last() == (self.items@[n - 1].0@, self.items@[n - 1].1@));
            match bytes_order(self.items[n - 1].0.as_slice(), key.as_slice()) {
                Order::Before => {},
                _ => {
                    proof {
                        crate::octets::lemma_bytes_lt_total(self@.last().0, key@);
                    }
                    return Err(StoreError::UnorderedInsert);
                },
            }
        }
        let ghost (k, v) = (key@, value@);
        self.items.push((key, value));
        proof {
            assert(self@ =~= old(self)@.push((k, v)));
            assert forall|i: int, j: int| 0 <= i < j < self@.len() implies crate::octets::bytes_lt(
                (#[trigger] self@[i]).0,
                (#[trigger] self@[j]).0,
            ) by {
                if j == n && i < n - 1 {
                    crate::octets::lemma_bytes_lt_trans(self@[i].0, self@[n - 1].0, self@[j].0);
                }
            }
        }
        Ok(())
    }

    /// The node with the items pushed.
    pub fn finish(self) -> (r: ProllyNode)
        ensures
            r.deep_view() == (NodeModel { flags: 0, counts: seq![0u32, 0u32], items: self@ }),
    {
        let counts: [u32; 2] = [0, 0];
        assert(counts@ =~= seq![0u32, 0u32]);
        ProllyNode { flags: NodeFlags(0), counts, items: self.items }
    }
}

// ---------------------------------------------------------------------------
// Cursor over nodes
// ---------------------------------------------------------------------------

/// Walks the items of a list of nodes.
pub struct Cursor {
    nodes: Vec<ProllyNode>,
    node_idx: usize,
    item_idx: usize,
}

/// The items of each node and a position among them.
pub struct CursorModel {
    pub nodes: Seq<Seq<(Seq<u8>, Seq<u8>)>>,
    pub node: int,
    pub item: int,
}

impl View for Cursor {
    type V = CursorModel;

    closed spec fn view(&self) -> CursorModel {
        CursorModel {
            nodes: self.nodes@.map_values(|n: ProllyNode| n.items.deep_view()),
            node: self.node_idx as int,
            item: self.item_idx as int,
        }
    }
}

/// Is there an item at position `(node, item)`?
pub open spec fn item_at(nodes: Seq<Seq<(Seq<u8>, Seq<u8>)>>, node: int, item: int) -> bool {
    0 <= node < nodes.len() && 0 <= item < nodes[node].len()
}

/// Does the first position come before the second?
pub open spec fn position_before(n1: int, i1: int, n2: int, i2: int) -> bool {
    n1 < n2 || (n1 == n2 && i1 < i2)
}

/// Is `(node, item)` the first position whose key is not below `key`?
pub open spec fn first_from(
    nodes: Seq<Seq<(Seq<u8>, Seq<u8>)>>,
    key: Seq<u8>,
    node: int,
    item: int,
) -> bool {
    &&& item_at(nodes, node, item)
    &&& !crate::octets::bytes_lt(nodes[node][item].0, key)
    &&& forall|n: int, i: int| #[trigger]
        item_at(nodes, n, i) && position_before(n, i, node, item) ==> crate::octets::bytes_lt(
            nodes[n][i].0,
            key,
        )
}

/// The first position from `(node, item)` on that holds an item, skipping
/// nodes that are used up; behind the last node where there is none.
pub open spec fn settle(nodes: Seq<Seq<(Seq<u8>, Seq<u8>)>>, node: int, item: int) -> (int, int)
    decreases nodes.len() - node,
{
    if node >= nodes.len() || item < nodes[node].len() {
        (node, item)
    } else {
        settle(nodes, node + 1, 0)
    }
}

impl Cursor {
    /// The position is the start of a node or holds an item.
    pub open spec fn wf(&self) -> bool {
        &&& 0 <= self@.node <= self@.nodes.len()
        &&& self@.item == 0 || item_at(self@.nodes, self@.node, self@.item)
    }

    /// A cursor at the first item.
    pub fn new(nodes: Vec<ProllyNode>) -> (r: Self)
        ensures
            r.wf(),
            r@ == (CursorModel {
                nodes: nodes@.map_values(|n: ProllyNode| n.items.deep_view()),
                node: 0,
                item: 0,
            }),
    {
        Cursor { nodes, node_idx: 0, item_idx: 0 }
    }

    /// Move to the first item whose key is not below `key`. Where there is none
    /// the cursor goes back to the start of its node.
    pub fn seek(&mut self, key: &[u8]) -> (r: Option<(&[u8], &[u8])>)
        requires
            old(self).wf(),
        ensures
            final(self).wf(),
            final(self)@.nodes == old(self)@.nodes,
            r matches Some((k, v)) ==> first_from(
                final(self)@.nodes,
                key@,
                final(self)@.node,
                final(self)@.item,
            ) && final(self)@.nodes[final(self)@.node][final(self)@.item] == (k@, v@),
            r is None ==> final(self)@.node == old(self)@.node && final(self)@.item == 0 && forall|
                n: int,
                i: int,
            | #[trigger]
                item_at(old(self)@.nodes, n, i) ==> crate::octets::bytes_lt(
                    old(self)@.nodes[n][i].0,
                    key@,
                ),
    {
        self.item_idx = 0;
        let ghost nodes = self@.nodes;
        assert(nodes =~= old(self)@.nodes);
        let mut ni: usize = 0;
        while ni < self.nodes.len()
            invariant
                ni <= self.nodes@.len(),
                nodes == self@.nodes,
                self@ == (CursorModel { item: 0, ..old(self)@ }),
                self.wf(),
                forall|n: int, i: int| #[trigger]
                    item_at(nodes, n, i) && n < ni ==> crate::octets::bytes_lt(nodes[n][i].0, key@),
            decreases self.nodes.len() - ni,
        {
            let mut ii: usize = 0;
            assert(nodes[ni as int] == self.nodes@[ni as int].items.deep_view());
            while ii < self.nodes[ni].items.len()
                invariant
                    ni < self.nodes@.len(),
                    ii <= self.nodes@[ni as int].items@.len(),
                    nodes == self@.nodes,
                    nodes[ni as int] == self.nodes@[ni as int].items.deep_view(),
                    self@ == (CursorModel { item: 0, ..old(self)@ }),
                    self.wf(),
                    forall|n: int, i: int| #[trigger]
                        item_at(nodes, n, i) && position_before(n, i, ni as int, ii as int)
                            ==> crate::octets::bytes_lt(nodes[n][i].0, key@),
                decreases self.nodes[ni as int].items.len() - ii,
            {
                let o = bytes_order(self.nodes[ni].items[ii].0.as_slice(), key);
                assert(nodes[ni as int][ii as int].0 == self.nodes@[ni as int].items@[ii as int].0@);
                match o {
                    Order::Before => {},
                    _ => {
                        proof {
                            crate::octets::lemma_bytes_lt_total(
                                nodes[ni as int][ii as int].0,
                                key@,
                            );
                        }
                        self.node_idx = ni;
                        self.item_idx = ii;
                        assert(self@.nodes == nodes);
                        assert(item_at(nodes, ni as int, ii as int));
                        let item = &self.nodes[ni].items[ii];
                        return Some((item.0.as_slice(), item.1.as_slice()));
                    },
                }
                ii = ii + 1;
            }
            ni = ni + 1;
        }
        None
    }

    /// Move to the item after the current position.
    pub fn advance(&mut self) -> (r: Option<(&[u8], &[u8])>)
        requires
            old(self).wf(),
        ensures
            final(self).wf(),
            final(self)@.nodes == old(self)@.nodes,
            old(self)@.node >= old(self)@.nodes.len() ==> r is None && final(self)@ == old(self)@,
            old(self)@.node < old(self)@.nodes.len() ==> (final(self)@.node, final(self)@.item)
                == settle(old(self)@.nodes, old(self)@.node, old(self)@.item + 1) && (r is Some
                <==> final(self)@.node < old(self)@.nodes.len()),
            r matches Some((k, v)) ==> final(self)@.nodes[final(self)@.node][final(self)@.item] == (
                k@,
                v@,
            ),
    {
        if self.node_idx >= self.nodes.len() {
            return None;
        }
        let ghost nodes = self@.nodes;
        assert(nodes[self.node_idx as int] == self.nodes@[self.node_idx as int].items.deep_view());
        let len: usize = self.nodes[self.node_idx].items.len();
        assert(self.item_idx == 0 || self.item_idx < len);
        let mut ni: usize = self.node_idx;
        let mut ii: usize = self.item_idx + 1;
        let ghost target = settle(nodes, ni as int, ii as int);
        while ni < self.nodes.len() && ii >= self.nodes[ni].items.len()
            invariant
                ni <= self.nodes@.len(),
                nodes == self@.nodes,
                *self == *old(self),
                settle(nodes, ni as int, ii as int) == target,
                ni == self.nodes@.len() ==> ii == 0,
                ni < self.nodes@.len() ==> nodes[ni as int]
                    == self.nodes@[ni as int].items.deep_view(),
            decreases self.nodes.len() - ni,
        {
            ni = ni + 1;
            ii = 0;
        }
        self.node_idx = ni;
        self.item_idx = ii;
        assert(self@.nodes =~= nodes);
        if ni < self.nodes.len() {
            assert(nodes[ni as int] == self.nodes@[ni as int].items.deep_view());
            let item = &self.nodes[ni].items[ii];
            Some((item.0.as_slice(), item.1.as_slice()))
        } else {
            None
        }
    }
}

// ---------------------------------------------------------------------------
// Ordered byte map
// ---------------------------------------------------------------------------

/// The map that a list of items with distinct keys stands for.
pub open spec fn items_map(items: Seq<(Seq<u8>, Seq<u8>)>) -> Map<Seq<u8>, Seq<u8>> {
    Map::new(
        |k: Seq<u8>| exists|i: int| 0 <= i < items.len() && (#[trigger] items[i]).0 == k,
        |k: Seq<u8>| items[choose|i: int| 0 <= i < items.len() && (#[trigger] items[i]).0 == k].1,
    )
}

proof fn lemma_items_map(items: Seq<(Seq<u8>, Seq<u8>)>, i: int)
    requires
        keys_sorted(items),
        0 <= i < items.len(),
    ensures
        items_map(items).dom().contains(items[i].0),
        items_map(items)[items[i].0] == items[i].1,
{
    let k = items[i].0;
    assert(items[i].0 == k);
    let j = choose|j: int| 0 <= j < items.len() && (#[trigger] items[j]).0 == k;
    crate::octets::lemma_bytes_lt_total(k, k);
    if i < j {
        assert(crate::octets::bytes_lt(items[i].0, items[j].0));
    } else if j < i {
        assert(crate::octets::bytes_lt(items[j].0, items[i].0));
    }
}

/// A byte map kept in key order.
pub struct MutMap {
    snapshot: Vec<(Vec<u8>, Vec<u8>)>,
}

impl View for MutMap {
    type V = Map<Seq<u8>, Seq<u8>>;

    closed spec fn view(&self) -> Map<Seq<u8>, Seq<u8>> {
        items_map(self.snapshot.deep_view())
    }
}

impl Default for MutMap {
    fn default() -> (r: Self)
        ensures
            r.wf(),
            r@ == Map::<Seq<u8>, Seq<u8>>::empty(),
    {
        Self::new()
    }
}

impl MutMap {
    /// The keys increase strictly.
    pub closed spec fn wf(&self) -> bool {
        keys_sorted(self.snapshot.deep_view())
    }

    pub fn new() -> (r: Self)
        ensures
            r.wf(),
            r@ == Map::<Seq<u8>, Seq<u8>>::empty(),
    {
        let r = MutMap { snapshot: Vec::new() };
        assert(r@ =~= Map::<Seq<u8>, Seq<u8>>::empty());
        r
    }

    /// The entries in key order.
    pub fn snapshot(&self) -> (r: &[(Vec<u8>, Vec<u8>)])
        requires
            self.wf(),
        ensures
            keys_sorted(r.deep_view()),
            items_map(r.deep_view()) == self@,
    {
        let r = self.snapshot.as_slice();
        assert(r.deep_view() =~= self.snapshot.deep_view());
        r
    }

    /// The index of `key`, or the index at which it would stand.
    fn search(&self, key: &[u8]) -> (r: Result<usize, usize>)
        requires
            self.wf(),
        ensures
            match r {
                Ok(i) => i < self.snapshot@.len() && self.snapshot@[i as int].0@ == key@,
                Err(i) => {
                    &&& i <= self.snapshot@.len()
                    &&& forall|j: int|
                        0 <= j < i ==> crate::octets::bytes_lt(
                            (#[trigger] self.snapshot@[j]).0@,
                            key@,
                        )
                    &&& forall|j: int|
                        i <= j < self.snapshot@.len() ==> crate::octets::bytes_lt(
                            key@,
                            (#[trigger] self.snapshot@[j]).0@,
                        )
                },
            },
    {
        let mut lo: usize = 0;
        let mut hi: usize = self.snapshot.len();
        let ghost items = self.snapshot.deep_view();
        while lo < hi
            invariant
                lo <= hi <= self.snapshot@.len(),
                items == self.snapshot.deep_view(),
                keys_sorted(items),
                forall|j: int|
                    0 <= j < lo ==> crate::octets::bytes_lt((#[trigger] self.snapshot@[j]).0@, key@),
                forall|j: int|
                    hi <= j < self.snapshot@.len() ==> crate::octets::bytes_lt(
                        key@,
                        (#[trigger] self.snapshot@[j]).0@,
                    ),
            decreases hi - lo,
        {
            let mid: usize = lo + (hi - lo) / 2;
            assert(items[mid as int].0 == self.snapshot@[mid as int].0@);
            match bytes_order(self.snapshot[mid].0.as_slice(), key) {
                Order::Equal => {
                    return Ok(mid);
                },
                Order::Before => {
                    proof {
                        assert forall|j: int| 0 <= j < mid + 1 implies crate::octets::bytes_lt(
                            (#[trigger] self.snapshot@[j]).0@,
                            key@,
                        ) by {
                            if lo <= j < mid {
                                assert(items[j].0 == self.snapshot@[j].0@);
                                crate::octets::lemma_bytes_lt_trans(
                                    items[j].0,
                                    items[mid as int].0,
                                    key@,
                                );
                            }
                        }
                    }
                    lo = mid + 1;
                },
                Order::After => {
                    proof {
                        assert forall|j: int|
                            mid <= j < self.snapshot@.len() implies crate::octets::bytes_lt(
                            key@,
                            (#[trigger] self.snapshot@[j]).0@,
                        ) by {
                            if mid < j < hi {
                                assert(items[j].0 == self.snapshot@[j].0@);
                                crate::octets::lemma_bytes_lt_trans(
                                    key@,
                                    items[mid as int].0,
                                    items[j].0,
                                );
                            }
                        }
                    }
                    hi = mid;
                },
            }
        }
        Err(lo)
    }

    proof fn lemma_absent(self, key: Seq<u8>, i: int)
        requires
            self.wf(),
            0 <= i <= self.snapshot@.len(),
            forall|j: int|
                0 <= j < i ==> crate::octets::bytes_lt((#[trigger] self.snapshot@[j]).0@, key),
            forall|j: int|
                i <= j < self.snapshot@.len() ==> crate::octets::bytes_lt(
                    key,
                    (#[trigger] self.snapshot@[j]).0@,
                ),
        ensures
            !self@.dom().contains(key),
    {
        let items = self.snapshot.deep_view();
        if self@.dom().contains(key) {
            let j = choose|j: int| 0 <= j < items.len() && (#[trigger] items[j]).0 == key;
            assert(items[j].0 == self.snapshot@[j].0@);
            crate::octets::lemma_bytes_lt_total(key, key);
        }
    }

    /// The value of `key`.
    pub fn get(&self, key: &[u8]) -> (r: Option<&[u8]>)
        requires
            self.wf(),
        ensures
            r is Some <==> self@.dom().contains(key@),
            r matches Some(v) ==> v@ == self@[key@],
    {
        match self.search(key) {
            Ok(i) => {
                proof {
                    let items = self.snapshot.deep_view();
                    assert(items[i as int] == (
                        self.snapshot@[i as int].0@,
                        self.snapshot@[i as int].1@,
                    ));
                    lemma_items_map(items, i as int);
                }
                Some(self.snapshot[i].1.as_slice())
            },
            Err(i) => {
                proof {
                    self.lemma_absent(key@, i as int);
                }
                None
            },
        }
    }

    /// Set the value of `key`.
    pub fn put(&mut self, key: Vec<u8>, value: Vec<u8>)
        requires
            old(self).wf(),
        ensures
            final(self).wf(),
            final(self)@ == old(self)@.insert(key@, value@),
    {
        let ghost (k, v) = (key@, value@);
        let ghost before = self.snapshot.deep_view();
        match self.search(key.as_slice()) {
            Ok(i) => {
                self.snapshot[i] = (key, value);
                proof {
                    let after = self.snapshot.deep_view();
                    assert(after =~= before.update(i as int, (k, v)));
                    assert(before[i as int].0 == k);
                    assert(keys_sorted(after));
                    lemma_items_replaced(before, i as int, (k, v));
                }
            },
            Err(i) => {
                self.snapshot.insert(i, (key, value));
                proof {
                    let after = self.snapshot.deep_view();
                    assert(after =~= before.insert(i as int, (k, v)));
                    assert forall|j: int| 0 <= j < i implies crate::octets::bytes_lt(
                        (#[trigger] before[j]).0,
                        k,
                    ) by {
                        assert(before[j].0 == old(self).snapshot@[j].0@);
                    }
                    assert forall|j: int| i <= j < before.len() implies crate::octets::bytes_lt(
                        k,
                        (#[trigger] before[j]).0,
                    ) by {
                        assert(before[j].0 == old(self).snapshot@[j].0@);
                    }
                    lemma_items_inserted(before, i as int, (k, v));
                }
            },
        }
    }

    /// Remove `key`; was it there?
    pub fn delete(&mut self, key: &[u8]) -> (r: bool)
        requires
            old(self).wf(),
        ensures
            final(self).wf(),
            r == old(self)@.dom().contains(key@),
            final(self)@ == old(self)@.remove(key@),
    {
        let ghost before = self.snapshot.deep_view();
        match self.search(key) {
            Ok(i) => {
                self.snapshot.remove(i);
                proof {
                    let after = self.snapshot.deep_view();
                    assert(after =~= before.remove(i as int));
                    assert(before[i as int].0 == key@);
                    lemma_items_removed(before, i as int);
                    lemma_items_map(before, i as int);
                }
                true
            },
            Err(i) => {
                proof {
                    self.lemma_absent(key@, i as int);
                    assert(self@ =~= self@.remove(key@));
                }
                false
            },
        }
    }
}

proof fn lemma_items_replaced(items: Seq<(Seq<u8>, Seq<u8>)>, i: int, e: (Seq<u8>, Seq<u8>))
    requires
        keys_sorted(items),
        0 <= i < items.len(),
        items[i].0 == e.0,
    ensures
        items_map(items.update(i, e)) == items_map(items).insert(e.0, e.1),
{
    let after = items.update(i, e);
    assert(keys_sorted(after));
    let m = items_map(after);
    let n = items_map(items).insert(e.0, e.1);
    lemma_items_map(after, i);
    assert forall|k: Seq<u8>| m.dom().contains(k) <==> n.dom().contains(k) by {
        if m.dom().contains(k) {
            let j = choose|j: int| 0 <= j < after.len() && (#[trigger] after[j]).0 == k;
            assert(items[j].0 == k);
        }
        if n.dom().contains(k) && k != e.0 {
            let j = choose|j: int| 0 <= j < items.len() && (#[trigger] items[j]).0 == k;
            assert(after[j].0 == k);
        }
    }
    assert forall|k: Seq<u8>| m.dom().contains(k) implies m[k] == n[k] by {
        let j = choose|j: int| 0 <= j < after.len() && (#[trigger] after[j]).0 == k;
        lemma_items_map(after, j);
        lemma_items_map(items, j);
    }
    assert(m =~= n);
}

proof fn lemma_items_inserted(items: Seq<(Seq<u8>, Seq<u8>)>, i: int, e: (Seq<u8>, Seq<u8>))
    requires
        keys_sorted(items),
        0 <= i <= items.len(),
        forall|j: int| 0 <= j < i ==> crate::octets::bytes_lt((#[trigger] items[j]).0, e.0),
        forall|j: int|
            i <= j < items.len() ==> crate::octets::bytes_lt(e.0, (#[trigger] items[j]).0),
    ensures
        keys_sorted(items.insert(i, e)),
        items_map(items.insert(i, e)) == items_map(items).insert(e.0, e.1),
{
    let after = items.insert(i, e);
    assert forall|a: int, b: int| 0 <= a < b < after.len() implies crate::octets::bytes_lt(
        (#[trigger] after[a]).0,
        (#[trigger] after[b]).0,
    ) by {
        let x = if a < i {
            a
        } else {
            a - 1
        };
        let y = if b < i {
            b
        } else {
            b - 1
        };
        if a != i && b != i {
            assert(after[a] == items[x]);
            assert(after[b] == items[y]);
        } else if a == i {
            assert(after[b] == items[y]);
        } else {
            assert(after[a] == items[x]);
        }
    }
    let m = items_map(after);
    let n = items_map(items).insert(e.0, e.1);
    assert(after[i] == e);
    lemma_items_map(after, i);
    assert forall|k: Seq<u8>| m.dom().contains(k) <==> n.dom().contains(k) by {
        if m.dom().contains(k) && k != e.0 {
            let j = choose|j: int| 0 <= j < after.len() && (#[trigger] after[j]).0 == k;
            let x = if j < i {
                j
            } else {
                j - 1
            };
            assert(items[x].0 == k);
        }
        if n.dom().contains(k) && k != e.0 {
            let j = choose|j: int| 0 <= j < items.len() && (#[trigger] items[j]).0 == k;
            let x = if j < i {
                j
            } else {
                j + 1
            };
            assert(after[x].0 == k);
        }
    }
    assert forall|k: Seq<u8>| m.dom().contains(k) implies m[k] == n[k] by {
        if k != e.0 {
            let j = choose|j: int| 0 <= j < after.len() && (#[trigger] after[j]).0 == k;
            lemma_items_map(after, j);
            let x = if j < i {
                j
            } else {
                j - 1
            };
            lemma_items_map(items, x);
        }
    }
    assert(m =~= n);
}

proof fn lemma_items_removed(items: Seq<(Seq<u8>, Seq<u8>)>, i: int)
    requires
        keys_sorted(items),
        0 <= i < items.len(),
    ensures
        keys_sorted(items.remove(i)),
        items_map(items.remove(i)) == items_map(items).remove(items[i].0),
{
    let after = items.remove(i);
    let key = items[i].0;
    assert forall|a: int, b: int| 0 <= a < b < after.len() implies crate::octets::bytes_lt(
        (#[trigger] after[a]).0,
        (#[trigger] after[b]).0,
    ) by {
        let x = if a < i {
            a
        } else {
            a + 1
        };
        let y = if b < i {
            b
        } else {
            b + 1
        };
        assert(after[a] == items[x]);
        assert(after[b] == items[y]);
    }
    let m = items_map(after);
    let n = items_map(items).remove(key);
    crate::octets::lemma_bytes_lt_total(key, key);
    assert forall|k: Seq<u8>| m.dom().contains(k) <==> n.dom().contains(k) by {
        if m.dom().contains(k) {
            let j = choose|j: int| 0 <= j < after.len() && (#[trigger] after[j]).0 == k;
            let x = if j < i {
                j
            } else {
                j + 1
            };
            assert(items[x].0 == k);
        }
        if n.dom().contains(k) {
            let j = choose|j: int| 0 <= j < items.len() && (#[trigger] items[j]).0 == k;
            let x = if j < i {
                j
            } else {
                j - 1
            };
            assert(after[x].0 == k);
        }
    }
    assert forall|k: Seq<u8>| m.dom().contains(k) implies m[k] == n[k] by {
        let j = choose|j: int| 0 <= j < after.len() && (#[trigger] after[j]).0 == k;
        lemma_items_map(after, j);
        let x = if j < i {
            j
        } else {
            j + 1
        };
        lemma_items_map(items, x);
    }
    assert(m =~= n);
}

/// A cut stands at the first place, from the least length on, whose window hashes below the
/// bound of the level, and at the greatest length where there is none before it.
pub proof fn law_cut_is_the_first_boundary(p: Seq<u8>, level: u32, i: int)
    requires
        CHUNK_MIN <= i < cut_point(p, level),
        i + WINDOW <= p.len(),
    ensures
        CHUNK_MIN <= cut_point(p, level) <= CHUNK_MAX,
        xxh32(p.subrange(i, i + WINDOW), 0) >= split_bound(level),
        cut_point(p, level) < CHUNK_MAX ==> xxh32(
            p.subrange(cut_point(p, level), cut_point(p, level) + WINDOW),
            0,
        ) < split_bound(level),
{
    lemma_cut_from(p, level, CHUNK_MIN as int);
    lemma_first_boundary(p, level, CHUNK_MIN as int, i);
}

proof fn lemma_first_boundary(p: Seq<u8>, level: u32, from: int, i: int)
    requires
        0 <= from <= i < cut_from(p, level, from),
        i + WINDOW <= p.len(),
    ensures
        !boundary(p, level, i),
        cut_from(p, level, from) < CHUNK_MAX ==> boundary(p, level, cut_from(p, level, from)),
    decreases p.len() - from,
{
    if from < i {
        lemma_first_boundary(p, level, from + 1, i);
    } else {
        lemma_cut_boundary(p, level, from);
    }
}

proof fn lemma_cut_boundary(p: Seq<u8>, level: u32, from: int)
    ensures
        cut_from(p, level, from) < CHUNK_MAX ==> boundary(p, level, cut_from(p, level, from)),
    decreases p.len() - from,
{
    if from + WINDOW <= p.len() && !boundary(p, level, from) {
        lemma_cut_boundary(p, level, from + 1);
    }
}

/// One window in two to the power of the level is a boundary: the bound halves with each
/// level, and level zero has none.
pub proof fn law_bound_halves_with_the_level(level: u32)
    requires
        1 <= level < 32,
    ensures
        split_bound(0) == 0,
        split_bound(level) == 2 * split_bound((level + 1) as u32),
        split_bound(32) == 1,
{
    assert((1u32 << ((32 - level) as u32)) == 2 * (1u32 << ((31 - level) as u32))) by (bit_vector)
        requires
            1 <= level < 32,
    ;
    assert((32 - (level + 1) as u32) as u32 == (31 - level) as u32);
    assert(1u32 << 0u32 == 1) by (bit_vector);
}

} // verus!
