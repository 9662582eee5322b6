//! The canonical wire form of remote synchronisation: snapshot records, content
//! ids and the table of remote branches.
//!
//! Every object that crosses over to a remote is addressed by its content and
//! has one byte form, so that both sides agree on ids without trusting each
//! other.

use vstd::prelude::*;

use crate::assoc::AssocMap;
use crate::chunk::blake3_chunk_hash;
use crate::commit::{
    decode_v2, encode_v2, hash_commit, twos_of, untwos_of, CommitModel, CommitStore, Graph,
    MemCommitStore,
};
use crate::digest::hex_of;
use crate::merge::extract_pk;
use crate::model::{array20, CommitId, VersionError, VersionResult};
use crate::octets::{bytes_eq, push_all, push_le, Order};
use crate::reader::Reader;
use crate::sorting::key_before;
use crate::staging::{SnapModel, TableSnapshot};
use crate::text::{str_eq, str_order, Dup, Same};
use crate::values::{CellModel, RowModel, VcRow, VcValue};

verus! {

broadcast use crate::text::lemma_bytes_deep_view;

/// The most ids that one round of a transfer carries.
pub const SYNC_BATCH_SIZE: usize = 256;

/// Content id of a snapshot record: of the owner commit, the table name and the
/// canonical bytes of the snapshot.
#[derive(Copy, Clone, Eq, PartialOrd, Ord, Hash, Debug)]
pub struct SnapshotId(pub [u8; 20]);

impl View for SnapshotId {
    type V = Seq<u8>;

    open spec fn view(&self) -> Seq<u8> {
        self.0@
    }
}

impl DeepView for SnapshotId {
    type V = Seq<u8>;

    open spec fn deep_view(&self) -> Seq<u8> {
        self.0@
    }
}

impl PartialEq for SnapshotId {
    fn eq(&self, other: &Self) -> (r: bool) {
        let r = bytes_eq(vstd::array::array_as_slice(&self.0), vstd::array::array_as_slice(&other.0));
        assert(self.0@ == other.0@ ==> self.0 =~= other.0);
        r
    }
}

impl vstd::std_specs::cmp::PartialEqSpecImpl for SnapshotId {
    open spec fn obeys_eq_spec() -> bool {
        true
    }

    open spec fn eq_spec(&self, other: &Self) -> bool {
        self.0@ == other.0@
    }
}

impl Dup for SnapshotId {
    fn dup(&self) -> (r: Self) {
        *self
    }
}

impl Same for SnapshotId {
    fn same(&self, other: &Self) -> (r: bool) {
        *self == *other
    }
}

impl SnapshotId {
    /// The twenty bytes.
    pub fn as_bytes(&self) -> (r: &[u8; 20])
        ensures
            r@ == self@,
    {
        &self.0
    }

    /// The bytes as forty lower-case hexadecimal digits.
    pub fn to_hex(&self) -> (r: String)
        ensures
            r@ == crate::digest::hex_text(self@),
    {
        hex_of(vstd::array::array_as_slice(&self.0))
    }
}

/// What a remote can be asked for, over the types of the two ids.
#[derive(Copy, Clone, Debug)]
pub enum SourceId<C = CommitId, S = SnapshotId> {
    Commit(C),
    Snapshot(S),
}

/// What a source id stands for.
pub type SourceModel = SourceId<Seq<u8>, Seq<u8>>;

impl DeepView for SourceId {
    type V = SourceModel;

    open spec fn deep_view(&self) -> SourceModel {
        match *self {
            SourceId::Commit(id) => SourceId::Commit(id@),
            SourceId::Snapshot(id) => SourceId::Snapshot(id@),
        }
    }
}

impl Dup for SourceId {
    fn dup(&self) -> (r: Self) {
        *self
    }
}

impl Same for SourceId {
    fn same(&self, other: &Self) -> (r: bool) {
        match (self, other) {
            (SourceId::Commit(a), SourceId::Commit(b)) => *a == *b,
            (SourceId::Snapshot(a), SourceId::Snapshot(b)) => *a == *b,
            _ => false,
        }
    }
}

impl PartialEq for SourceId {
    fn eq(&self, other: &Self) -> (r: bool) {
        self.same(other)
    }
}

impl vstd::std_specs::cmp::PartialEqSpecImpl for SourceId {
    open spec fn obeys_eq_spec() -> bool {
        true
    }

    open spec fn eq_spec(&self, other: &Self) -> bool {
        self.deep_view() == other.deep_view()
    }
}

/// The bytes of a source id.
pub open spec fn source_bytes(id: SourceModel) -> Seq<u8> {
    match id {
        SourceId::Commit(b) => b,
        SourceId::Snapshot(b) => b,
    }
}

impl SourceId {
    /// The id as forty lower-case hexadecimal digits.
    pub fn to_hex(&self) -> (r: String)
        ensures
            r@ == crate::digest::hex_text(source_bytes(self.deep_view())),
    {
        match self {
            SourceId::Commit(id) => id.to_hex(),
            SourceId::Snapshot(id) => id.to_hex(),
        }
    }
}

/// The branches of a remote: the name of the default one, and the tip of each.
#[derive(Debug, Clone, PartialEq, Eq)]
pub struct RemoteRefs {
    pub default_branch: String,
    pub branches: Vec<(String, CommitId)>,
}

/// What the branches of a remote stand for.
pub struct RefsModel {
    pub default_branch: Seq<char>,
    pub branches: Seq<(Seq<char>, Seq<u8>)>,
}

impl DeepView for RemoteRefs {
    type V = RefsModel;

    open spec fn deep_view(&self) -> RefsModel {
        RefsModel {
            default_branch: self.default_branch@,
            branches: self.branches.deep_view(),
        }
    }
}

impl Dup for RemoteRefs {
    fn dup(&self) -> (r: Self) {
        RemoteRefs {
            default_branch: self.default_branch.clone(),
            branches: self.branches.dup(),
        }
    }
}

impl Default for RemoteRefs {
    fn default() -> (r: Self)
        ensures
            r.deep_view() == (RefsModel { default_branch: seq![], branches: seq![] }),
    {
        let r = RemoteRefs { default_branch: String::new(), branches: Vec::new() };
        assert(r.default_branch@ =~= seq![]);
        assert(r.branches.deep_view() =~= seq![]);
        r
    }
}

// ---------------------------------------------------------------------------
// Lists
// ---------------------------------------------------------------------------

/// The bytes of items one behind the other.
pub open spec fn write_many<A>(items: Seq<A>, g: spec_fn(A) -> Seq<u8>) -> Seq<u8>
    decreases items.len(),
{
    if items.len() == 0 {
        seq![]
    } else {
        g(items[0]) + write_many(items.drop_first(), g)
    }
}

/// Read `n` items behind those already read.
pub open spec fn read_many<A>(
    s: Seq<u8>,
    n: nat,
    f: spec_fn(Seq<u8>) -> Option<(A, Seq<u8>)>,
    got: Seq<A>,
) -> Option<(Seq<A>, Seq<u8>)>
    decreases n,
{
    if n == 0 {
        Some((got, s))
    } else {
        match f(s) {
            None => None,
            Some((x, rest)) => read_many(rest, (n - 1) as nat, f, got.push(x)),
        }
    }
}

/// Items that read back one by one read back together.
proof fn lemma_read_many<A>(
    items: Seq<A>,
    f: spec_fn(Seq<u8>) -> Option<(A, Seq<u8>)>,
    g: spec_fn(A) -> Seq<u8>,
    got: Seq<A>,
    rest: Seq<u8>,
)
    requires
        forall|i: int, r: Seq<u8>|
            0 <= i < items.len() ==> #[trigger] f(g(items[i]) + r) == Some((items[i], r)),
    ensures
        read_many(write_many(items, g) + rest, items.len(), f, got) == Some((got + items, rest)),
    decreases items.len(),
{
    if items.len() == 0 {
        assert(write_many(items, g) + rest =~= rest);
        assert(got + items =~= got);
    } else {
        let t = items.drop_first();
        let tail = write_many(t, g) + rest;
        assert(write_many(items, g) + rest =~= g(items[0]) + tail);
        assert(f(g(items[0]) + tail) == Some((items[0], tail)));
        assert forall|i: int, r: Seq<u8>| 0 <= i < t.len() implies #[trigger] f(g(t[i]) + r)
            == Some((t[i], r)) by {
            assert(t[i] == items[i + 1]);
            assert(f(g(items[i + 1]) + r) == Some((items[i + 1], r)));
        }
        lemma_read_many(t, f, g, got.push(items[0]), rest);
        assert(got.push(items[0]) + t =~= got + items);
    }
}

/// The writer of short texts.
pub open spec fn text_writer() -> spec_fn(Seq<char>) -> Seq<u8> {
    |t: Seq<char>| crate::reader::short_text(t)
}

/// The reader of short texts.
pub open spec fn text_reader() -> spec_fn(Seq<u8>) -> Option<(Seq<char>, Seq<u8>)> {
    |s: Seq<u8>| crate::reader::read_short_text(s)
}

/// A list of texts behind its length in two bytes.
pub open spec fn texts_bytes(t: Seq<Seq<char>>) -> Seq<u8> {
    crate::octets::le_bytes(t.len(), 2) + write_many(t, text_writer())
}

/// Read a list of texts.
pub open spec fn read_texts(s: Seq<u8>) -> Option<(Seq<Seq<char>>, Seq<u8>)> {
    match crate::reader::read_le_n(s, 2) {
        Some((n, rest)) => read_many(rest, n, text_reader(), seq![]),
        None => None,
    }
}

/// Do the texts and their number fit their fields?
pub open spec fn texts_fit(t: Seq<Seq<char>>) -> bool {
    &&& t.len() < 0x1_0000
    &&& forall|i: int| 0 <= i < t.len() ==> crate::text::utf8(#[trigger] t[i]).len() < 0x1_0000
}

proof fn lemma_read_texts(t: Seq<Seq<char>>, rest: Seq<u8>)
    requires
        texts_fit(t),
    ensures
        read_texts(texts_bytes(t) + rest) == Some((t, rest)),
{
    crate::octets::lemma_radix();
    let f = text_reader();
    let g = text_writer();
    let body = write_many(t, g);
    crate::reader::lemma_read_le_n(t.len(), 2, body + rest);
    assert(texts_bytes(t) + rest =~= crate::octets::le_bytes(t.len(), 2) + (body + rest));
    assert forall|i: int, r: Seq<u8>| 0 <= i < t.len() implies #[trigger] f(g(t[i]) + r) == Some(
        (t[i], r),
    ) by {
        crate::reader::lemma_read_short_text(t[i], r);
    }
    lemma_read_many(t, f, g, seq![], rest);
    assert(seq![] + t =~= t);
}

/// Append a text behind its length in two bytes.
fn push_short_text(buf: &mut Vec<u8>, t: &str)
    ensures
        final(buf)@ == old(buf)@ + crate::reader::short_text(t@),
{
    let bytes = t.as_bytes();
    push_le(buf, bytes.len() as u64, 2);
    push_all(buf, bytes);
    assert(buf@ =~= old(buf)@ + crate::reader::short_text(t@));
}

/// Append a text behind its length in four bytes.
fn push_long_text(buf: &mut Vec<u8>, t: &str)
    ensures
        final(buf)@ == old(buf)@ + crate::commit::long_text(t@),
{
    let bytes = t.as_bytes();
    push_le(buf, bytes.len() as u64, 4);
    push_all(buf, bytes);
    assert(buf@ =~= old(buf)@ + crate::commit::long_text(t@));
}

/// Append a list of texts.
fn push_texts(buf: &mut Vec<u8>, t: &Vec<String>)
    ensures
        final(buf)@ == old(buf)@ + texts_bytes(t.deep_view()),
{
    let ghost start = buf@;
    push_le(buf, t.len() as u64, 2);
    let ghost m = t.deep_view();
    let ghost g = text_writer();
    let ghost head = buf@;
    let mut i: usize = 0;
    assert(m.skip(0) =~= m);
    while i < t.len()
        invariant
            i <= t@.len(),
            m == t.deep_view(),
            g == text_writer(),
            buf@ + write_many(m.skip(i as int), g) == head + write_many(m, g),
        decreases t.len() - i,
    {
        let ghost before = buf@;
        push_short_text(buf, t[i].as_str());
        proof {
            let u = m.skip(i as int);
            assert(u.drop_first() =~= m.skip(i + 1));
            assert(u[0] == t@[i as int]@);
            assert(before + write_many(u, g) =~= buf@ + write_many(m.skip(i + 1), g));
        }
        i = i + 1;
    }
    assert(m.skip(i as int) =~= seq![]);
    assert(buf@ =~= head + write_many(m, g));
    assert(buf@ =~= start + texts_bytes(m));
}

/// Read a list of texts.
fn take_texts(r: &mut Reader) -> (t: Option<Vec<String>>)
    requires
        old(r).wf(),
    ensures
        final(r).wf(),
        match read_texts(old(r).rest()) {
            Some((m, rest)) => t matches Some(v) && v.deep_view() == m && final(r).rest() == rest,
            None => t is None,
        },
{
    proof {
        crate::octets::lemma_radix();
    }
    let n = match r.le(2) {
        Some(n) => n as usize,
        None => {
            return None;
        },
    };
    let ghost f = text_reader();
    let ghost start = r.rest();
    let mut out: Vec<String> = Vec::new();
    let mut i: usize = 0;
    assert(out.deep_view() =~= seq![]);
    while i < n
        invariant
            i <= n,
            r.wf(),
            f == text_reader(),
            read_texts(old(r).rest()) == read_many(start, n as nat, f, seq![]),
            read_many(r.rest(), (n - i) as nat, f, out.deep_view()) == read_many(
                start,
                n as nat,
                f,
                seq![],
            ),
        decreases n - i,
    {
        let ghost before = out.deep_view();
        match r.short_text() {
            Some(s) => {
                let ghost x = s@;
                out.push(s);
                assert(out.deep_view() =~= before.push(x));
            },
            None => {
                return None;
            },
        }
        i = i + 1;
    }
    Some(out)
}

// ---------------------------------------------------------------------------
// Cells and rows
// ---------------------------------------------------------------------------

/// The bytes of a cell: a tag, then the value. Reals are written by their bits and blobs
/// by their bytes, so that tables that differ in such cells alone have different ids;
/// they are not read back.
pub open spec fn cell_bytes(v: CellModel) -> Seq<u8> {
    match v {
        VcValue::Null => seq![0u8],
        VcValue::Integer(i) => seq![1u8] + crate::octets::le_bytes(
            crate::commit::twos(i as int),
            8,
        ),
        VcValue::Text(t) => seq![2u8] + crate::commit::long_text(t),
        VcValue::Real(b) => seq![3u8] + crate::octets::le_bytes(b as nat, 8),
        VcValue::Blob(b) => seq![4u8] + (crate::octets::le_bytes(b.len(), 4) + b),
    }
}

/// Read a cell: a null, an integer or a text. Any other tag is refused.
pub open spec fn read_cell(s: Seq<u8>) -> Option<(CellModel, Seq<u8>)> {
    match crate::reader::split_n(s, 1) {
        None => None,
        Some((tag, rest)) => if tag[0] == 0 {
            Some((VcValue::Null, rest))
        } else if tag[0] == 1 {
            match crate::reader::read_le_n(rest, 8) {
                Some((x, after)) => Some(
                    (VcValue::Integer(crate::commit::untwos(x) as i64), after),
                ),
                None => None,
            }
        } else if tag[0] == 2 {
            match crate::commit::read_long_text(rest) {
                Some((t, after)) => Some((VcValue::Text(t), after)),
                None => None,
            }
        } else {
            None
        },
    }
}

/// Is a cell one that reads back: a null, an integer, or a text whose length fits its
/// field?
pub open spec fn cell_fits(v: CellModel) -> bool {
    match v {
        VcValue::Null => true,
        VcValue::Integer(_) => true,
        VcValue::Text(t) => crate::text::utf8(t).len() < 0x1_0000_0000,
        VcValue::Real(_) => false,
        VcValue::Blob(_) => false,
    }
}

proof fn lemma_read_cell(v: CellModel, rest: Seq<u8>)
    requires
        cell_fits(v),
    ensures
        read_cell(cell_bytes(v) + rest) == Some((v, rest)),
{
    crate::octets::lemma_radix();
    let s = cell_bytes(v) + rest;
    match v {
        VcValue::Null => {
            crate::reader::lemma_split_n(seq![0u8], rest);
        },
        VcValue::Integer(i) => {
            let b = crate::octets::le_bytes(crate::commit::twos(i as int), 8);
            assert(s =~= seq![1u8] + (b + rest));
            crate::reader::lemma_split_n(seq![1u8], b + rest);
            crate::reader::lemma_read_le_n(crate::commit::twos(i as int), 8, rest);
        },
        VcValue::Text(t) => {
            assert(s =~= seq![2u8] + (crate::commit::long_text(t) + rest));
            crate::reader::lemma_split_n(seq![2u8], crate::commit::long_text(t) + rest);
            crate::commit::lemma_read_long_text(t, rest);
        },
        _ => {},
    }
}

/// Append a cell.
fn encode_cell(buf: &mut Vec<u8>, value: &VcValue)
    ensures
        final(buf)@ == old(buf)@ + cell_bytes(value.deep_view()),
{
    match value {
        VcValue::Null => {
            buf.push(0u8);
        },
        VcValue::Integer(i) => {
            buf.push(1u8);
            push_le(buf, twos_of(*i), 8);
        },
        VcValue::Text(s) => {
            buf.push(2u8);
            push_long_text(buf, s.as_str());
        },
        VcValue::Real(b) => {
            buf.push(3u8);
            push_le(buf, *b, 8);
        },
        VcValue::Blob(b) => {
            buf.push(4u8);
            push_le(buf, b.len() as u64, 4);
            push_all(buf, b.as_slice());
        },
    }
    assert(buf@ =~= old(buf)@ + cell_bytes(value.deep_view()));
}

/// Read a cell.
fn decode_cell(r: &mut Reader) -> (c: Option<VcValue>)
    requires
        old(r).wf(),
    ensures
        final(r).wf(),
        match read_cell(old(r).rest()) {
            Some((m, rest)) => c matches Some(v) && v.deep_view() == m && final(r).rest() == rest,
            None => c is None,
        },
{
    proof {
        crate::octets::lemma_radix();
    }
    let tag = match r.take(1) {
        Some(b) => b[0],
        None => {
            return None;
        },
    };
    if tag == 0 {
        Some(VcValue::Null)
    } else if tag == 1 {
        match r.le(8) {
            Some(x) => Some(VcValue::Integer(untwos_of(x))),
            None => None,
        }
    } else if tag == 2 {
        match crate::commit::take_long_text(r) {
            Some(t) => Some(VcValue::Text(t)),
            None => None,
        }
    } else {
        None
    }
}

/// The writer of cells.
pub open spec fn cell_writer() -> spec_fn(CellModel) -> Seq<u8> {
    |v: CellModel| cell_bytes(v)
}

/// The reader of cells.
pub open spec fn cell_reader() -> spec_fn(Seq<u8>) -> Option<(CellModel, Seq<u8>)> {
    |s: Seq<u8>| read_cell(s)
}

/// The bytes of a row: the number of cells in two bytes, then the cells.
pub open spec fn row_bytes(row: RowModel) -> Seq<u8> {
    crate::octets::le_bytes(row.len(), 2) + write_many(row, cell_writer())
}

/// Read a row.
pub open spec fn read_row(s: Seq<u8>) -> Option<(RowModel, Seq<u8>)> {
    match crate::reader::read_le_n(s, 2) {
        Some((n, rest)) => read_many(rest, n, cell_reader(), seq![]),
        None => None,
    }
}

/// Do the cells of a row and their number fit their fields?
pub open spec fn row_fits(row: RowModel) -> bool {
    &&& row.len() < 0x1_0000
    &&& forall|i: int| 0 <= i < row.len() ==> cell_fits(#[trigger] row[i])
}

proof fn lemma_read_row(row: RowModel, rest: Seq<u8>)
    requires
        row_fits(row),
    ensures
        read_row(row_bytes(row) + rest) == Some((row, rest)),
{
    crate::octets::lemma_radix();
    let f = cell_reader();
    let g = cell_writer();
    let body = write_many(row, g);
    crate::reader::lemma_read_le_n(row.len(), 2, body + rest);
    assert(row_bytes(row) + rest =~= crate::octets::le_bytes(row.len(), 2) + (body + rest));
    assert forall|i: int, r: Seq<u8>| 0 <= i < row.len() implies #[trigger] f(g(row[i]) + r)
        == Some((row[i], r)) by {
        lemma_read_cell(row[i], r);
    }
    lemma_read_many(row, f, g, seq![], rest);
    assert(seq![] + row =~= row);
}

/// Append a row.
fn encode_row(buf: &mut Vec<u8>, row: &VcRow)
    ensures
        final(buf)@ == old(buf)@ + row_bytes(row.deep_view()),
{
    let ghost start = buf@;
    push_le(buf, row.values.len() as u64, 2);
    let ghost m = row.deep_view();
    let ghost g = cell_writer();
    let ghost head = buf@;
    let mut i: usize = 0;
    assert(m.skip(0) =~= m);
    while i < row.values.len()
        invariant
            i <= row.values@.len(),
            m == row.deep_view(),
            g == cell_writer(),
            buf@ + write_many(m.skip(i as int), g) == head + write_many(m, g),
        decreases row.values.len() - i,
    {
        let ghost before = buf@;
        encode_cell(buf, &row.values[i]);
        proof {
            let u = m.skip(i as int);
            assert(u.drop_first() =~= m.skip(i + 1));
            assert(u[0] == row.values@[i as int].deep_view());
            assert(before + write_many(u, g) =~= buf@ + write_many(m.skip(i + 1), g));
        }
        i = i + 1;
    }
    assert(m.skip(i as int) =~= seq![]);
    assert(buf@ =~= head + write_many(m, g));
    assert(buf@ =~= start + row_bytes(m));
}

/// Read a row.
fn decode_row(r: &mut Reader) -> (c: Option<VcRow>)
    requires
        old(r).wf(),
    ensures
        final(r).wf(),
        match read_row(old(r).rest()) {
            Some((m, rest)) => c matches Some(v) && v.deep_view() == m && final(r).rest() == rest,
            None => c is None,
        },
{
    proof {
        crate::octets::lemma_radix();
    }
    let n = match r.le(2) {
        Some(n) => n as usize,
        None => {
            return None;
        },
    };
    let ghost f = cell_reader();
    let ghost start = r.rest();
    let mut out: Vec<VcValue> = Vec::new();
    let mut i: usize = 0;
    assert(out.deep_view() =~= seq![]);
    while i < n
        invariant
            i <= n,
            r.wf(),
            f == cell_reader(),
            read_row(old(r).rest()) == read_many(start, n as nat, f, seq![]),
            read_many(r.rest(), (n - i) as nat, f, out.deep_view()) == read_many(
                start,
                n as nat,
                f,
                seq![],
            ),
        decreases n - i,
    {
        let ghost before = out.deep_view();
        match decode_cell(r) {
            Some(v) => {
                let ghost x = v.deep_view();
                out.push(v);
                assert(out.deep_view() =~= before.push(x));
            },
            None => {
                return None;
            },
        }
        i = i + 1;
    }
    Some(VcRow::new(out))
}

/// The writer of rows.
pub open spec fn row_writer() -> spec_fn(RowModel) -> Seq<u8> {
    |row: RowModel| row_bytes(row)
}

/// The reader of rows.
pub open spec fn row_reader() -> spec_fn(Seq<u8>) -> Option<(RowModel, Seq<u8>)> {
    |s: Seq<u8>| read_row(s)
}

/// Rows behind their number in four bytes.
pub open spec fn rows_bytes(rows: Seq<RowModel>) -> Seq<u8> {
    crate::octets::le_bytes(rows.len(), 4) + write_many(rows, row_writer())
}

/// Read rows.
pub open spec fn read_rows(s: Seq<u8>) -> Option<(Seq<RowModel>, Seq<u8>)> {
    match crate::reader::read_le_n(s, 4) {
        Some((n, rest)) => read_many(rest, n, row_reader(), seq![]),
        None => None,
    }
}

/// Do the rows and their number fit their fields?
pub open spec fn rows_fit(rows: Seq<RowModel>) -> bool {
    &&& rows.len() < 0x1_0000_0000
    &&& forall|i: int| 0 <= i < rows.len() ==> row_fits(#[trigger] rows[i])
}

proof fn lemma_read_rows(rows: Seq<RowModel>, rest: Seq<u8>)
    requires
        rows_fit(rows),
    ensures
        read_rows(rows_bytes(rows) + rest) == Some((rows, rest)),
{
    crate::octets::lemma_radix();
    let f = row_reader();
    let g = row_writer();
    let body = write_many(rows, g);
    crate::reader::lemma_read_le_n(rows.len(), 4, body + rest);
    assert(rows_bytes(rows) + rest =~= crate::octets::le_bytes(rows.len(), 4) + (body + rest));
    assert forall|i: int, r: Seq<u8>| 0 <= i < rows.len() implies #[trigger] f(g(rows[i]) + r)
        == Some((rows[i], r)) by {
        lemma_read_row(rows[i], r);
    }
    lemma_read_many(rows, f, g, seq![], rest);
    assert(seq![] + rows =~= rows);
}

/// Append rows.
fn push_rows(buf: &mut Vec<u8>, rows: &Vec<VcRow>)
    ensures
        final(buf)@ == old(buf)@ + rows_bytes(rows.deep_view()),
{
    let ghost start = buf@;
    push_le(buf, rows.len() as u64, 4);
    let ghost m = rows.deep_view();
    let ghost g = row_writer();
    let ghost head = buf@;
    let mut i: usize = 0;
    assert(m.skip(0) =~= m);
    while i < rows.len()
        invariant
            i <= rows@.len(),
            m == rows.deep_view(),
            g == row_writer(),
            buf@ + write_many(m.skip(i as int), g) == head + write_many(m, g),
        decreases rows.len() - i,
    {
        let ghost before = buf@;
        encode_row(buf, &rows[i]);
        proof {
            let u = m.skip(i as int);
            assert(u.drop_first() =~= m.skip(i + 1));
            assert(u[0] == rows@[i as int].deep_view());
            assert(before + write_many(u, g) =~= buf@ + write_many(m.skip(i + 1), g));
        }
        i = i + 1;
    }
    assert(m.skip(i as int) =~= seq![]);
    assert(buf@ =~= head + write_many(m, g));
    assert(buf@ =~= start + rows_bytes(m));
}

/// Read rows.
fn take_rows(r: &mut Reader) -> (c: Option<Vec<VcRow>>)
    requires
        old(r).wf(),
    ensures
        final(r).wf(),
        match read_rows(old(r).rest()) {
            Some((m, rest)) => c matches Some(v) && v.deep_view() == m && final(r).rest() == rest,
            None => c is None,
        },
{
    proof {
        crate::octets::lemma_radix();
    }
    let n = match r.le(4) {
        Some(n) => n as usize,
        None => {
            return None;
        },
    };
    let ghost f = row_reader();
    let ghost start = r.rest();
    let mut out: Vec<VcRow> = Vec::new();
    let mut i: usize = 0;
    assert(out.deep_view() =~= seq![]);
    while i < n
        invariant
            i <= n,
            r.wf(),
            f == row_reader(),
            read_rows(old(r).rest()) == read_many(start, n as nat, f, seq![]),
            read_many(r.rest(), (n - i) as nat, f, out.deep_view()) == read_many(
                start,
                n as nat,
                f,
                seq![],
            ),
        decreases n - i,
    {
        let ghost before = out.deep_view();
        match decode_row(r) {
            Some(v) => {
                let ghost x = v.deep_view();
                out.push(v);
                assert(out.deep_view() =~= before.push(x));
            },
            None => {
                return None;
            },
        }
        i = i + 1;
    }
    Some(out)
}

// ---------------------------------------------------------------------------
// Snapshot records
// ---------------------------------------------------------------------------

/// The sort key of a row: the bytes of its key cells, in key order. A key cell
/// that the row does not reach is left out.
pub open spec fn row_key(snap: SnapModel) -> spec_fn(RowModel) -> crate::sorting::Key {
    |row: RowModel|
        crate::merge::pk_cells(row, snap.pk, snap.columns).map_values(|v: CellModel| cell_bytes(v))
}

/// The rows in canonical order: by key where the table has one whose columns are
/// all there, else as they are.
pub open spec fn canonical_rows(snap: SnapModel) -> Seq<RowModel> {
    if snap.pk.len() > 0 && crate::constraints::all_found(snap.columns, snap.pk) {
        crate::sorting::sort_by(snap.rows, row_key(snap))
    } else {
        snap.rows
    }
}

/// The snapshot with its rows in canonical order.
pub open spec fn canonical(snap: SnapModel) -> SnapModel {
    SnapModel { rows: canonical_rows(snap), ..snap }
}

/// The magic word of a snapshot and its version.
pub open spec fn snapshot_head() -> Seq<u8> {
    seq![83u8, 78u8, 65u8, 80u8, 1u8]
}

/// The canonical bytes of a snapshot.
pub open spec fn snapshot_bytes(snap: SnapModel) -> Seq<u8> {
    snapshot_head() + (texts_bytes(snap.columns) + (texts_bytes(snap.pk) + (
    crate::commit::long_text(snap.schema_sql) + rows_bytes(canonical_rows(snap)))))
}

/// The bytes of a snapshot record: the owner, the table and the snapshot.
pub open spec fn record_bytes(owner: Seq<u8>, table: Seq<char>, snap: SnapModel) -> Seq<u8> {
    owner + (crate::reader::short_text(table) + snapshot_bytes(snap))
}

/// The id of a snapshot record.
pub open spec fn record_id(owner: Seq<u8>, table: Seq<char>, snap: SnapModel) -> Seq<u8> {
    crate::chunk::chunk_address(record_bytes(owner, table, snap))
}

/// Read the snapshot that makes up all of `s`.
pub open spec fn read_snapshot(s: Seq<u8>) -> Option<SnapModel> {
    match crate::reader::split_n(s, 5) {
        None => None,
        Some((head, s1)) => if head != snapshot_head() {
            None
        } else {
            match read_texts(s1) {
                None => None,
                Some((columns, s2)) => match read_texts(s2) {
                    None => None,
                    Some((pk, s3)) => match crate::commit::read_long_text(s3) {
                        None => None,
                        Some((schema_sql, s4)) => match read_rows(s4) {
                            None => None,
                            Some((rows, s5)) => if s5.len() == 0 {
                                Some(SnapModel { columns, pk, rows, schema_sql })
                            } else {
                                None
                            },
                        },
                    },
                },
            }
        },
    }
}

/// Read a snapshot record.
pub open spec fn read_record(s: Seq<u8>) -> Option<(Seq<u8>, Seq<char>, SnapModel)> {
    match crate::reader::split_n(s, 20) {
        None => None,
        Some((owner, s1)) => match crate::reader::read_short_text(s1) {
            None => None,
            Some((table, s2)) => match read_snapshot(s2) {
                None => None,
                Some(snap) => Some((owner, table, snap)),
            },
        },
    }
}

/// Do the parts of a snapshot fit their fields?
pub open spec fn snapshot_fits(snap: SnapModel) -> bool {
    &&& texts_fit(snap.columns)
    &&& texts_fit(snap.pk)
    &&& crate::text::utf8(snap.schema_sql).len() < 0x1_0000_0000
    &&& rows_fit(snap.rows)
}

/// Do the parts of a record fit their fields?
pub open spec fn record_fits(owner: Seq<u8>, table: Seq<char>, snap: SnapModel) -> bool {
    &&& owner.len() == 20
    &&& crate::text::utf8(table).len() < 0x1_0000
    &&& snapshot_fits(snap)
}

/// The bytes of the key cells of a row.
fn pk_key(row: &VcRow, pk: &Vec<String>, columns: &Vec<String>) -> (r: Vec<Vec<u8>>)
    ensures
        r.deep_view() == crate::merge::pk_cells(
            row.deep_view(),
            pk.deep_view(),
            columns.deep_view(),
        ).map_values(|v: CellModel| cell_bytes(v)),
{
    let cells = extract_pk(row, pk, columns);
    let ghost m = cells.deep_view();
    let mut out: Vec<Vec<u8>> = Vec::new();
    let mut i: usize = 0;
    while i < cells.len()
        invariant
            i <= cells@.len(),
            m == cells.deep_view(),
            out@.len() == i,
            forall|j: int| 0 <= j < i ==> (#[trigger] out@[j])@ == cell_bytes(m[j]),
        decreases cells.len() - i,
    {
        assert(m[i as int] == cells@[i as int].deep_view());
        let mut one: Vec<u8> = Vec::new();
        encode_cell(&mut one, &cells[i]);
        assert(one@ =~= cell_bytes(m[i as int]));
        out.push(one);
        i = i + 1;
    }
    assert(out.deep_view() =~= m.map_values(|v: CellModel| cell_bytes(v)));
    out
}

/// The rows in canonical order.
fn sorted_rows(snap: &TableSnapshot) -> (r: Vec<VcRow>)
    ensures
        r.deep_view() == crate::sorting::sort_by(
            snap.deep_view().rows,
            row_key(snap.deep_view()),
        ),
{
    let ghost m = snap.deep_view();
    let ghost k = row_key(m);
    let ghost s = m.rows;
    let mut out: Vec<VcRow> = Vec::new();
    let mut keys: Vec<Vec<Vec<u8>>> = Vec::new();
    let mut i: usize = 0;
    assert(s.take(0) =~= seq![]);
    assert(out.deep_view() =~= seq![]);
    while i < snap.rows.len()
        invariant
            i <= snap.rows@.len(),
            m == snap.deep_view(),
            k == row_key(m),
            s == m.rows,
            out@.len() == i,
            keys@.len() == i,
            forall|j: int| 0 <= j < i ==> #[trigger] keys.deep_view()[j] == k(out.deep_view()[j]),
            out.deep_view() == crate::sorting::sort_by(s.take(i as int), k),
        decreases snap.rows.len() - i,
    {
        assert(s.take(i + 1).drop_last() =~= s.take(i as int));
        assert(s.take(i + 1).last() == snap.rows@[i as int].deep_view());
        let ghost done = out.deep_view();
        let ghost got = keys.deep_view();
        let row = snap.rows[i].dup();
        let ghost x = row.deep_view();
        let key = pk_key(&row, &snap.pk, &snap.columns);
        let ghost kx = key.deep_view();
        assert(kx == k(x));
        let mut p: usize = out.len();
        while p > 0 && key_before(&key, &keys[p - 1])
            invariant
                p <= done.len(),
                keys@.len() == done.len(),
                got == keys.deep_view(),
                kx == key.deep_view(),
                kx == k(x),
                forall|j: int| 0 <= j < done.len() ==> #[trigger] got[j] == k(done[j]),
                forall|q: int|
                    p <= q < done.len() ==> crate::sorting::key_lt(k(x), k(#[trigger] done[q])),
            decreases p,
        {
            assert(got[p - 1] == keys@[p - 1].deep_view());
            p = p - 1;
        }
        proof {
            if p > 0 {
                assert(got[p - 1] == keys@[p - 1].deep_view());
                assert(got[p - 1] == k(done[p - 1]));
            }
            crate::sorting::lemma_insert_at(done, x, k, p as int);
        }
        out.insert(p, row);
        keys.insert(p, key);
        proof {
            assert(out.deep_view() =~= done.insert(p as int, x));
            assert(keys.deep_view() =~= got.insert(p as int, kx));
        }
        i = i + 1;
    }
    assert(s.take(i as int) =~= s);
    out
}

/// Append the canonical bytes of a snapshot.
fn encode_snapshot_body(buf: &mut Vec<u8>, snap: &TableSnapshot)
    ensures
        final(buf)@ == old(buf)@ + snapshot_bytes(snap.deep_view()),
{
    let ghost start = buf@;
    let ghost m = snap.deep_view();
    buf.push(83u8);
    buf.push(78u8);
    buf.push(65u8);
    buf.push(80u8);
    buf.push(1u8);
    assert(buf@ =~= start + snapshot_head());
    push_texts(buf, &snap.columns);
    push_texts(buf, &snap.pk);
    push_long_text(buf, snap.schema_sql.as_str());
    if snap.pk.len() > 0 && crate::constraints::columns_found(&snap.columns, &snap.pk) {
        let rows = sorted_rows(snap);
        push_rows(buf, &rows);
    } else {
        push_rows(buf, &snap.rows);
    }
    assert(buf@ =~= start + snapshot_bytes(m));
}

/// The canonical bytes of a snapshot.
pub fn encode_snapshot(snap: &TableSnapshot) -> (r: Vec<u8>)
    ensures
        r@ == snapshot_bytes(snap.deep_view()),
{
    let mut buf: Vec<u8> = Vec::new();
    encode_snapshot_body(&mut buf, snap);
    assert(buf@ =~= snapshot_bytes(snap.deep_view()));
    buf
}

/// The address of the canonical bytes of a snapshot. Snapshots with the same
/// contents have the same address, whatever commit and table they belong to.
pub fn snapshot_id(snap: &TableSnapshot) -> (r: SnapshotId)
    ensures
        r@ == crate::chunk::chunk_address(snapshot_bytes(snap.deep_view())),
{
    let bytes = encode_snapshot(snap);
    SnapshotId(blake3_chunk_hash(bytes.as_slice()).0)
}

/// The bytes of a snapshot record, and its id.
pub fn encode_snapshot_record(owner: &CommitId, table: &str, snap: &TableSnapshot) -> (r: (
    SnapshotId,
    Vec<u8>,
))
    ensures
        r.0@ == record_id(owner@, table@, snap.deep_view()),
        r.1@ == record_bytes(owner@, table@, snap.deep_view()),
{
    let mut buf: Vec<u8> = Vec::new();
    push_all(&mut buf, vstd::array::array_as_slice(&owner.0));
    push_short_text(&mut buf, table);
    encode_snapshot_body(&mut buf, snap);
    assert(buf@ =~= record_bytes(owner@, table@, snap.deep_view()));
    let id = SnapshotId(blake3_chunk_hash(buf.as_slice()).0);
    (id, buf)
}

/// Read the snapshot that makes up the rest.
fn decode_snapshot_body(r: &mut Reader) -> (c: Option<TableSnapshot>)
    requires
        old(r).wf(),
    ensures
        match read_snapshot(old(r).rest()) {
            Some(m) => c matches Some(v) && v.deep_view() == m,
            None => c is None,
        },
{
    let head = match r.take(5) {
        Some(b) => b,
        None => {
            return None;
        },
    };
    if head[0] != 83 || head[1] != 78 || head[2] != 65 || head[3] != 80 || head[4] != 1 {
        assert(snapshot_head()[0] == 83 && snapshot_head()[1] == 78 && snapshot_head()[2] == 65
            && snapshot_head()[3] == 80 && snapshot_head()[4] == 1);
        return None;
    }
    assert(head@ =~= snapshot_head());
    let columns = match take_texts(r) {
        Some(t) => t,
        None => {
            return None;
        },
    };
    let pk = match take_texts(r) {
        Some(t) => t,
        None => {
            return None;
        },
    };
    let schema_sql = match crate::commit::take_long_text(r) {
        Some(t) => t,
        None => {
            return None;
        },
    };
    let rows = match take_rows(r) {
        Some(t) => t,
        None => {
            return None;
        },
    };
    if !r.at_end() {
        return None;
    }
    Some(TableSnapshot { columns, pk, rows, schema_sql })
}

/// Read a snapshot record back.
pub fn decode_snapshot_record(bytes: &[u8]) -> (r: VersionResult<(CommitId, String, TableSnapshot)>)
    ensures
        match read_record(bytes@) {
            Some((owner, table, snap)) => r matches Ok(x) && x.0@ == owner && x.1@ == table
                && x.2.deep_view() == snap,
            None => r matches Err(e) && e.deep_view()
                == VersionError::<Seq<char>>::InvalidSnapshotEncoding,
        },
{
    let mut reader = Reader::new(bytes);
    let owner = match reader.take(20) {
        Some(b) => b,
        None => {
            return Err(VersionError::InvalidSnapshotEncoding);
        },
    };
    assert(owner@.subrange(0, 20) =~= owner@);
    let table = match reader.short_text() {
        Some(t) => t,
        None => {
            return Err(VersionError::InvalidSnapshotEncoding);
        },
    };
    match decode_snapshot_body(&mut reader) {
        Some(snap) => Ok((CommitId(array20(owner.as_slice(), 0)), table, snap)),
        None => Err(VersionError::InvalidSnapshotEncoding),
    }
}

// ---------------------------------------------------------------------------
// Branch tables
// ---------------------------------------------------------------------------

/// A branch and its tip.
pub type BranchModel = (Seq<char>, Seq<u8>);

/// Is there a branch of this name?
pub open spec fn has_branch(s: Seq<BranchModel>, name: Seq<char>) -> bool {
    exists|i: int| 0 <= i < s.len() && (#[trigger] s[i]).0 == name
}

/// Put a branch where its name belongs.
pub open spec fn insert_branch(s: Seq<BranchModel>, b: BranchModel) -> Seq<BranchModel>
    decreases s.len(),
{
    if s.len() == 0 || crate::text::text_lt(s.last().0, b.0) {
        s.push(b)
    } else {
        insert_branch(s.drop_last(), b).push(s.last())
    }
}

/// The branches by name; of branches with one name only the first counts.
pub open spec fn sorted_branches(s: Seq<BranchModel>) -> Seq<BranchModel>
    decreases s.len(),
{
    if s.len() == 0 {
        seq![]
    } else {
        let before = sorted_branches(s.drop_last());
        if has_branch(before, s.last().0) {
            before
        } else {
            insert_branch(before, s.last())
        }
    }
}

/// The bytes of a branch.
pub open spec fn branch_bytes(b: BranchModel) -> Seq<u8> {
    crate::reader::short_text(b.0) + b.1
}

/// Read a branch.
pub open spec fn read_branch(s: Seq<u8>) -> Option<(BranchModel, Seq<u8>)> {
    match crate::reader::read_short_text(s) {
        None => None,
        Some((name, rest)) => match crate::reader::split_n(rest, 20) {
            None => None,
            Some((id, after)) => Some(((name, id), after)),
        },
    }
}

/// The writer of branches.
pub open spec fn branch_writer() -> spec_fn(BranchModel) -> Seq<u8> {
    |b: BranchModel| branch_bytes(b)
}

/// The reader of branches.
pub open spec fn branch_reader() -> spec_fn(Seq<u8>) -> Option<(BranchModel, Seq<u8>)> {
    |s: Seq<u8>| read_branch(s)
}

/// The bytes of a branch table: a version, the default branch, the number of
/// branches in two bytes, and the branches by name.
pub open spec fn refs_bytes(refs: RefsModel) -> Seq<u8> {
    let b = sorted_branches(refs.branches);
    seq![1u8] + (crate::reader::short_text(refs.default_branch) + (crate::octets::le_bytes(
        b.len(),
        2,
    ) + write_many(b, branch_writer())))
}

/// Read a branch table that makes up all of `s`.
pub open spec fn read_refs(s: Seq<u8>) -> Option<RefsModel> {
    match crate::reader::split_n(s, 1) {
        None => None,
        Some((ver, s1)) => if ver[0] != 1 {
            None
        } else {
            match crate::reader::read_short_text(s1) {
                None => None,
                Some((default_branch, s2)) => match crate::reader::read_le_n(s2, 2) {
                    None => None,
                    Some((n, s3)) => match read_many(s3, n, branch_reader(), seq![]) {
                        None => None,
                        Some((branches, s4)) => if s4.len() == 0 {
                            Some(RefsModel { default_branch, branches })
                        } else {
                            None
                        },
                    },
                },
            }
        },
    }
}

/// Do the parts of a branch table fit their fields?
pub open spec fn refs_fit(refs: RefsModel) -> bool {
    &&& crate::text::utf8(refs.default_branch).len() < 0x1_0000
    &&& refs.branches.len() < 0x1_0000
    &&& forall|i: int|
        0 <= i < refs.branches.len() ==> crate::text::utf8((#[trigger] refs.branches[i]).0).len()
            < 0x1_0000 && refs.branches[i].1.len() == 20
}

proof fn lemma_insert_branch_at(s: Seq<BranchModel>, b: BranchModel, p: int)
    requires
        0 <= p <= s.len(),
        forall|q: int|
            p <= q < s.len() ==> !crate::text::text_lt((#[trigger] s[q]).0, b.0),
        p > 0 ==> crate::text::text_lt(s[p - 1].0, b.0),
    ensures
        insert_branch(s, b) == s.insert(p, b),
    decreases s.len(),
{
    if p == s.len() {
        assert(s.insert(p, b) =~= s.push(b));
    } else {
        let t = s.drop_last();
        assert(!crate::text::text_lt(s[s.len() - 1].0, b.0));
        assert forall|q: int| p <= q < t.len() implies !crate::text::text_lt(
            (#[trigger] t[q]).0,
            b.0,
        ) by {
            assert(t[q] == s[q]);
        }
        lemma_insert_branch_at(t, b, p);
        assert(t.insert(p, b).push(s.last()) =~= s.insert(p, b));
    }
}

/// The branches by name, each name once.
fn sort_branches(branches: &Vec<(String, CommitId)>) -> (r: Vec<(String, CommitId)>)
    ensures
        r.deep_view() == sorted_branches(branches.deep_view()),
        r@.len() <= branches@.len(),
{
    let ghost s = branches.deep_view();
    let mut out: Vec<(String, CommitId)> = Vec::new();
    let mut i: usize = 0;
    assert(s.take(0) =~= seq![]);
    assert(out.deep_view() =~= seq![]);
    while i < branches.len()
        invariant
            i <= branches@.len(),
            s == branches.deep_view(),
            out@.len() <= i,
            out.deep_view() == sorted_branches(s.take(i as int)),
        decreases branches.len() - i,
    {
        assert(s.take(i + 1).drop_last() =~= s.take(i as int));
        assert(s.take(i + 1).last() == branches@[i as int].deep_view());
        let ghost done = out.deep_view();
        let b = &branches[i];
        let ghost x = b.deep_view();
        let mut found = false;
        let mut k: usize = 0;
        while k < out.len()
            invariant
                k <= out@.len(),
                done == out.deep_view(),
                x == b.deep_view(),
                found == exists|j: int| 0 <= j < k && (#[trigger] done[j]).0 == x.0,
            decreases out.len() - k,
        {
            assert(done[k as int] == out@[k as int].deep_view());
            if str_eq(out[k].0.as_str(), b.0.as_str()) {
                found = true;
            }
            k = k + 1;
        }
        assert(found == has_branch(done, x.0));
        if !found {
            let mut p: usize = out.len();
            while p > 0 && str_order(out[p - 1].0.as_str(), b.0.as_str()) != Order::Before
                invariant
                    p <= out@.len(),
                    done == out.deep_view(),
                    x == b.deep_view(),
                    forall|q: int|
                        p <= q < done.len() ==> !crate::text::text_lt((#[trigger] done[q]).0, x.0),
                decreases p,
            {
                assert(done[p - 1] == out@[p - 1].deep_view());
                p = p - 1;
            }
            proof {
                if p > 0 {
                    assert(done[p - 1] == out@[p - 1].deep_view());
                }
                lemma_insert_branch_at(done, x, p as int);
            }
            out.insert(p, b.dup());
            assert(out.deep_view() =~= done.insert(p as int, x));
        }
        i = i + 1;
    }
    assert(s.take(i as int) =~= s);
    out
}

/// The bytes of a branch table.
pub fn encode_refs(refs: &RemoteRefs) -> (r: Vec<u8>)
    ensures
        r@ == refs_bytes(refs.deep_view()),
{
    let branches = sort_branches(&refs.branches);
    let ghost m = branches.deep_view();
    let ghost g = branch_writer();
    let mut buf: Vec<u8> = Vec::new();
    buf.push(1u8);
    push_short_text(&mut buf, refs.default_branch.as_str());
    push_le(&mut buf, branches.len() as u64, 2);
    let ghost head = buf@;
    let mut i: usize = 0;
    assert(m.skip(0) =~= m);
    while i < branches.len()
        invariant
            i <= branches@.len(),
            m == branches.deep_view(),
            g == branch_writer(),
            buf@ + write_many(m.skip(i as int), g) == head + write_many(m, g),
        decreases branches.len() - i,
    {
        let ghost before = buf@;
        push_short_text(&mut buf, branches[i].0.as_str());
        push_all(&mut buf, vstd::array::array_as_slice(&branches[i].1.0));
        proof {
            let u = m.skip(i as int);
            assert(u.drop_first() =~= m.skip(i + 1));
            assert(u[0] == branches@[i as int].deep_view());
            assert(before + write_many(u, g) =~= buf@ + write_many(m.skip(i + 1), g));
        }
        i = i + 1;
    }
    assert(m.skip(i as int) =~= seq![]);
    assert(buf@ =~= head + write_many(m, g));
    assert(buf@ =~= refs_bytes(refs.deep_view()));
    buf
}

/// Read a branch table back.
pub fn decode_refs(bytes: &[u8]) -> (r: VersionResult<RemoteRefs>)
    ensures
        crate::model::outcome(r) == (match read_refs(bytes@) {
            Some(m) => Ok::<RefsModel, VersionError<Seq<char>>>(m),
            None => Err(VersionError::FailedReadRemoteRefs),
        }),
{
    proof {
        crate::octets::lemma_radix();
    }
    let mut reader = Reader::new(bytes);
    match reader.take(1) {
        Some(b) => {
            if b[0] != 1 {
                return Err(VersionError::FailedReadRemoteRefs);
            }
        },
        None => {
            return Err(VersionError::FailedReadRemoteRefs);
        },
    }
    let default_branch = match reader.short_text() {
        Some(t) => t,
        None => {
            return Err(VersionError::FailedReadRemoteRefs);
        },
    };
    let n = match reader.le(2) {
        Some(n) => n as usize,
        None => {
            return Err(VersionError::FailedReadRemoteRefs);
        },
    };
    match take_branches(&mut reader, n) {
        Some(branches) => {
            if !reader.at_end() {
                return Err(VersionError::FailedReadRemoteRefs);
            }
            Ok(RemoteRefs { default_branch, branches })
        },
        None => Err(VersionError::FailedReadRemoteRefs),
    }
}

/// Read `n` branches.
fn take_branches(r: &mut Reader, n: usize) -> (c: Option<Vec<(String, CommitId)>>)
    requires
        old(r).wf(),
    ensures
        final(r).wf(),
        match read_many(old(r).rest(), n as nat, branch_reader(), seq![]) {
            Some((m, rest)) => c matches Some(v) && v.deep_view() == m && final(r).rest() == rest,
            None => c is None,
        },
{
    let ghost f = branch_reader();
    let ghost start = r.rest();
    let mut out: Vec<(String, CommitId)> = Vec::new();
    let mut i: usize = 0;
    assert(out.deep_view() =~= seq![]);
    while i < n
        invariant
            i <= n,
            r.wf(),
            f == branch_reader(),
            start == old(r).rest(),
            read_many(r.rest(), (n - i) as nat, f, out.deep_view()) == read_many(
                start,
                n as nat,
                f,
                seq![],
            ),
        decreases n - i,
    {
        let ghost before = out.deep_view();
        let name = match r.short_text() {
            Some(t) => t,
            None => {
                return None;
            },
        };
        let id = match r.take(20) {
            Some(b) => b,
            None => {
                return None;
            },
        };
        assert(id@.subrange(0, 20) =~= id@);
        let ghost x = (name@, id@);
        out.push((name, CommitId(array20(id.as_slice(), 0))));
        assert(out.deep_view() =~= before.push(x));
        i = i + 1;
    }
    Some(out)
}

// ---------------------------------------------------------------------------
// Verification
// ---------------------------------------------------------------------------

/// The failure to verify an object.
pub open spec fn unverified(id: Seq<u8>) -> VersionError<Seq<char>> {
    VersionError::ChunkVerificationFailed(crate::digest::hex_text(id))
}

/// Are these the bytes of the object that `id` names? A snapshot must be in its
/// canonical byte form.
pub open spec fn verified(id: SourceModel, bytes: Seq<u8>) -> Result<(), VersionError<Seq<char>>> {
    match id {
        SourceId::Commit(want) => match crate::commit::read_commit(bytes) {
            None => Err(VersionError::InvalidCommitEncoding),
            Some(c) => if crate::commit::commit_id(c) == want && crate::commit::commit_bytes(c)
                == bytes {
                Ok(())
            } else {
                Err(unverified(want))
            },
        },
        SourceId::Snapshot(want) => if crate::chunk::chunk_address(bytes) != want {
            Err(unverified(want))
        } else {
            match read_record(bytes) {
                None => Err(VersionError::InvalidSnapshotEncoding),
                Some((owner, table, snap)) => if record_bytes(owner, table, snap) == bytes {
                    Ok(())
                } else {
                    Err(unverified(want))
                },
            }
        },
    }
}

/// Check that these are the bytes of the object that `id` names. Bytes that are not
/// canonical are refused, so that one id means one byte form.
pub fn verify_object(id: &SourceId, bytes: &[u8]) -> (r: VersionResult<()>)
    ensures
        match verified(id.deep_view(), bytes@) {
            Ok(_) => r is Ok,
            Err(e) => r matches Err(x) && x.deep_view() == e,
        },
{
    match id {
        SourceId::Commit(want) => {
            let commit = match decode_v2(bytes) {
                Ok(c) => c,
                Err(e) => {
                    return Err(e);
                },
            };
            let got = hash_commit(&commit);
            let canonical = encode_v2(&commit);
            if got == *want && bytes_eq(canonical.as_slice(), bytes) {
                Ok(())
            } else {
                Err(VersionError::ChunkVerificationFailed(want.to_hex()))
            }
        },
        SourceId::Snapshot(want) => {
            let got = SnapshotId(blake3_chunk_hash(bytes).0);
            if !(got == *want) {
                return Err(VersionError::ChunkVerificationFailed(want.to_hex()));
            }
            let (owner, table, snap) = match decode_snapshot_record(bytes) {
                Ok(x) => x,
                Err(e) => {
                    return Err(e);
                },
            };
            let (_, canonical) = encode_snapshot_record(&owner, table.as_str(), &snap);
            if bytes_eq(canonical.as_slice(), bytes) {
                Ok(())
            } else {
                Err(VersionError::ChunkVerificationFailed(want.to_hex()))
            }
        },
    }
}

/// The snapshots of a repository: by owner commit, then by table.
pub type Snapshots = AssocMap<CommitId, AssocMap<String, TableSnapshot>>;

/// What the snapshots of a repository stand for.
pub type SnapshotsModel = Map<Seq<u8>, Map<Seq<char>, SnapModel>>;

/// The tables of one commit.
pub open spec fn tables_at(snaps: SnapshotsModel, owner: Seq<u8>) -> Map<Seq<char>, SnapModel> {
    if snaps.dom().contains(owner) {
        snaps[owner]
    } else {
        Map::empty()
    }
}

/// The snapshots with one more.
pub open spec fn with_snapshot(
    snaps: SnapshotsModel,
    owner: Seq<u8>,
    table: Seq<char>,
    snap: SnapModel,
) -> SnapshotsModel {
    snaps.insert(owner, tables_at(snaps, owner).insert(table, snap))
}

/// The commits and snapshots after an object came in.
pub open spec fn stored(
    commits: Graph,
    snaps: SnapshotsModel,
    id: SourceModel,
    bytes: Seq<u8>,
) -> Result<(Graph, SnapshotsModel), VersionError<Seq<char>>> {
    match verified(id, bytes) {
        Err(e) => Err(e),
        Ok(_) => match id {
            SourceId::Commit(_) => {
                let c = crate::commit::read_commit(bytes)->0;
                Ok((commits.insert(crate::commit::commit_id(c), c), snaps))
            },
            SourceId::Snapshot(_) => {
                let (owner, table, snap) = read_record(bytes)->0;
                Ok((commits, with_snapshot(snaps, owner, table, snap)))
            },
        },
    }
}

/// Keep a snapshot under its owner and table.
pub fn put_snapshot(snaps: &mut Snapshots, owner: CommitId, table: String, snap: TableSnapshot)
    ensures
        final(snaps).deep_view() == with_snapshot(
            old(snaps).deep_view(),
            owner@,
            table@,
            snap.deep_view(),
        ),
{
    let mut inner = match snaps.get(&owner) {
        Some(m) => m.dup(),
        None => AssocMap::new(),
    };
    inner.insert(table, snap);
    snaps.insert(owner, inner);
}

/// Store an object once it is verified: a commit among the commits, a snapshot
/// under its owner and table. A refused object changes nothing.
pub fn store_object(
    commits: &mut MemCommitStore,
    snapshots: &mut Snapshots,
    id: &SourceId,
    bytes: &[u8],
) -> (r: VersionResult<()>)
    ensures
        match stored(
            old(commits).deep_view(),
            old(snapshots).deep_view(),
            id.deep_view(),
            bytes@,
        ) {
            Ok((c, s)) => r is Ok && final(commits).deep_view() == c && final(snapshots).deep_view() == s,
            Err(e) => (r matches Err(x) && x.deep_view() == e) && final(commits).deep_view()
                == old(commits).deep_view() && final(snapshots).deep_view() == old(snapshots).deep_view(),
        },
{
    match verify_object(id, bytes) {
        Ok(_) => {},
        Err(e) => {
            return Err(e);
        },
    }
    match id {
        SourceId::Commit(_) => {
            match decode_v2(bytes) {
                Ok(c) => {
                    let _ = commits.put_commit(c);
                    Ok(())
                },
                Err(e) => Err(e),
            }
        },
        SourceId::Snapshot(_) => {
            match decode_snapshot_record(bytes) {
                Ok((owner, table, snap)) => {
                    put_snapshot(snapshots, owner, table, snap);
                    Ok(())
                },
                Err(e) => Err(e),
            }
        },
    }
}

// ---------------------------------------------------------------------------
// Laws
// ---------------------------------------------------------------------------

/// The rows of a fitting snapshot fit in canonical order too.
proof fn lemma_canonical_fits(snap: SnapModel)
    requires
        rows_fit(snap.rows),
    ensures
        rows_fit(canonical_rows(snap)),
{
    let k = row_key(snap);
    crate::sorting::law_sort_by(snap.rows, k);
    let s = crate::sorting::sort_by(snap.rows, k);
    snap.rows.to_multiset_ensures();
    s.to_multiset_ensures();
    assert forall|i: int| 0 <= i < s.len() implies row_fits(#[trigger] s[i]) by {
        assert(s.contains(s[i]));
        assert(s.to_multiset().count(s[i]) > 0);
        assert(snap.rows.contains(s[i]));
        let q = choose|q: int| 0 <= q < snap.rows.len() && snap.rows[q] == s[i];
        assert(row_fits(snap.rows[q]));
    }
}

#[verifier::rlimit(40)]
#[verifier::spinoff_prover]
proof fn lemma_read_snapshot(snap: SnapModel)
    requires
        snapshot_fits(snap),
    ensures
        read_snapshot(snapshot_bytes(snap)) == Some(canonical(snap)),
{
    lemma_canonical_fits(snap);
    let rows = canonical_rows(snap);
    let d = rows_bytes(rows);
    let c = crate::commit::long_text(snap.schema_sql) + d;
    let b = texts_bytes(snap.pk) + c;
    let a = texts_bytes(snap.columns) + b;
    crate::reader::lemma_split_n(snapshot_head(), a);
    lemma_read_texts(snap.columns, b);
    lemma_read_texts(snap.pk, c);
    crate::commit::lemma_read_long_text(snap.schema_sql, d);
    lemma_read_rows(rows, seq![]);
    assert(d + seq![] =~= d);
}

/// A snapshot record whose parts fit reads back, with its rows in canonical
/// order.
pub proof fn law_record_roundtrip(owner: Seq<u8>, table: Seq<char>, snap: SnapModel)
    requires
        record_fits(owner, table, snap),
    ensures
        read_record(record_bytes(owner, table, snap)) == Some((owner, table, canonical(snap))),
{
    let body = snapshot_bytes(snap);
    crate::reader::lemma_split_n(owner, crate::reader::short_text(table) + body);
    crate::reader::lemma_read_short_text(table, body);
    lemma_read_snapshot(snap);
}

/// The key of a row does not depend on the rows around it.
proof fn lemma_row_key_canonical(snap: SnapModel)
    ensures
        row_key(canonical(snap)) == row_key(snap),
{
    assert(row_key(canonical(snap)) =~= row_key(snap));
}

/// Putting the rows in canonical order does not change the bytes of a record.
pub proof fn law_canonical_is_fixed(owner: Seq<u8>, table: Seq<char>, snap: SnapModel)
    ensures
        record_bytes(owner, table, canonical(snap)) == record_bytes(owner, table, snap),
{
    let k = row_key(snap);
    lemma_row_key_canonical(snap);
    crate::sorting::law_sort_by(snap.rows, k);
    crate::sorting::law_sorted_stays(crate::sorting::sort_by(snap.rows, k), k);
}

/// A record whose parts fit passes verification under its own id.
pub proof fn law_record_verifies(owner: Seq<u8>, table: Seq<char>, snap: SnapModel)
    requires
        record_fits(owner, table, snap),
    ensures
        verified(
            SourceModel::Snapshot(record_id(owner, table, snap)),
            record_bytes(owner, table, snap),
        ) is Ok,
{
    law_record_roundtrip(owner, table, snap);
    law_canonical_is_fixed(owner, table, snap);
}

/// A commit whose parts fit passes verification under its own id.
pub proof fn law_commit_verifies(c: CommitModel)
    requires
        crate::commit::commit_fits(c),
    ensures
        verified(
            SourceModel::Commit(crate::commit::commit_id(c)),
            crate::commit::commit_bytes(c),
        ) is Ok,
{
    crate::commit::law_commit_roundtrip(c, seq![]);
    assert(crate::commit::commit_bytes(c) + seq![] =~= crate::commit::commit_bytes(c));
}

/// Bytes that pass verification are those of the commit or the record with that id: one
/// id means one byte form.
pub proof fn law_verified_is_canonical(id: SourceModel, bytes: Seq<u8>)
    requires
        verified(id, bytes) is Ok,
    ensures
        match id {
            SourceId::Commit(want) => crate::commit::read_commit(bytes) matches Some(c) && bytes
                == crate::commit::commit_bytes(c) && want == crate::commit::commit_id(c),
            SourceId::Snapshot(want) => read_record(bytes) matches Some((owner, table, snap))
                && bytes == record_bytes(owner, table, snap) && want == record_id(
                owner,
                table,
                snap,
            ),
        },
{
}

/// The order in which rows were inserted does not change the bytes of a record
/// where equal keys mean equal rows.
pub proof fn law_row_order_is_free(owner: Seq<u8>, table: Seq<char>, a: SnapModel, b: SnapModel)
    requires
        a.columns == b.columns,
        a.pk == b.pk,
        a.schema_sql == b.schema_sql,
        a.rows.to_multiset() == b.rows.to_multiset(),
        a.pk.len() > 0,
        crate::constraints::all_found(a.columns, a.pk),
        forall|i: int, j: int|
            0 <= i < a.rows.len() && 0 <= j < a.rows.len() && row_key(a)(#[trigger] a.rows[i])
                == row_key(a)(#[trigger] a.rows[j]) ==> a.rows[i] == a.rows[j],
    ensures
        record_bytes(owner, table, a) == record_bytes(owner, table, b),
{
    assert(row_key(a) =~= row_key(b));
    crate::sorting::law_sort_ignores_order(a.rows, b.rows, row_key(a));
}

/// The first byte of a cell names its kind.
proof fn lemma_cell_tag(v: CellModel)
    ensures
        cell_bytes(v).len() > 0,
        cell_bytes(v)[0] == (match v {
            VcValue::Null => 0u8,
            VcValue::Integer(_) => 1u8,
            VcValue::Text(_) => 2u8,
            VcValue::Real(_) => 3u8,
            VcValue::Blob(_) => 4u8,
        }),
{
    match v {
        VcValue::Null => {},
        VcValue::Integer(_) => {},
        VcValue::Text(_) => {},
        VcValue::Real(_) => {},
        VcValue::Blob(_) => {},
    }
}

/// Different cells have different bytes.
pub proof fn lemma_cell_bytes_differ(u: CellModel, v: CellModel)
    requires
        cell_bytes(u) == cell_bytes(v),
    ensures
        u == v,
{
    let x = cell_bytes(u);
    let y = cell_bytes(v);
    lemma_cell_tag(u);
    lemma_cell_tag(v);
    if cell_fits(u) && cell_fits(v) {
        lemma_read_cell(u, seq![]);
        lemma_read_cell(v, seq![]);
    } else {
        match (u, v) {
            (VcValue::Text(a), VcValue::Text(b)) => {
                let p = crate::text::utf8(a);
                let q = crate::text::utf8(b);
                crate::octets::lemma_le_bytes_len(p.len(), 4);
                crate::octets::lemma_le_bytes_len(q.len(), 4);
                assert(x.skip(5) =~= p);
                assert(y.skip(5) =~= q);
                assert(p == q);
                crate::text::lemma_utf8_injective(a, b);
            },
            (VcValue::Blob(a), VcValue::Blob(b)) => {
                crate::octets::lemma_le_bytes_len(a.len(), 4);
                crate::octets::lemma_le_bytes_len(b.len(), 4);
                assert(x.skip(5) =~= a);
                assert(y.skip(5) =~= b);
            },
            (VcValue::Real(a), VcValue::Real(b)) => {
                crate::octets::lemma_radix();
                crate::octets::lemma_le_roundtrip(a as nat, 8);
                crate::octets::lemma_le_roundtrip(b as nat, 8);
                assert(x.skip(1) =~= crate::octets::le_bytes(a as nat, 8));
                assert(y.skip(1) =~= crate::octets::le_bytes(b as nat, 8));
            },
            _ => {},
        }
    }
}

/// The order in which the rows of a table with distinct primary keys stand does not
/// change the bytes of a record.
pub proof fn law_row_order_is_free_for_keys(
    owner: Seq<u8>,
    table: Seq<char>,
    a: SnapModel,
    b: SnapModel,
)
    requires
        a.columns == b.columns,
        a.pk == b.pk,
        a.schema_sql == b.schema_sql,
        a.rows.to_multiset() == b.rows.to_multiset(),
        a.pk.len() > 0,
        crate::constraints::all_found(a.columns, a.pk),
        crate::merge::distinct_keys(a.rows, a.pk, a.columns),
    ensures
        record_bytes(owner, table, a) == record_bytes(owner, table, b),
{
    assert forall|i: int, j: int|
        0 <= i < a.rows.len() && 0 <= j < a.rows.len() && row_key(a)(#[trigger] a.rows[i])
            == row_key(a)(#[trigger] a.rows[j]) implies a.rows[i] == a.rows[j] by {
        let x = crate::merge::pk_cells(a.rows[i], a.pk, a.columns);
        let y = crate::merge::pk_cells(a.rows[j], a.pk, a.columns);
        let bx = x.map_values(|v: CellModel| cell_bytes(v));
        let by = y.map_values(|v: CellModel| cell_bytes(v));
        assert(bx == by);
        assert(x.len() == bx.len() && y.len() == by.len());
        assert forall|k: int| 0 <= k < x.len() implies x[k] == y[k] by {
            assert(bx[k] == cell_bytes(x[k]));
            assert(by[k] == cell_bytes(y[k]));
            lemma_cell_bytes_differ(x[k], y[k]);
        }
        assert(x =~= y);
    }
    law_row_order_is_free(owner, table, a, b);
}

// ---------------------------------------------------------------------------
// Whole readings
// ---------------------------------------------------------------------------

/// Does a reader go by the bytes that it takes alone, whatever stands behind them?
spec fn takes_its_own<A>(f: spec_fn(Seq<u8>) -> Option<(A, Seq<u8>)>) -> bool {
    forall|s: Seq<u8>, more: Seq<u8>|
        f(s) matches Some((x, rest)) ==> #[trigger] f(s + more) == Some((x, rest + more))
}

proof fn lemma_split_more(s: Seq<u8>, n: nat, more: Seq<u8>)
    ensures
        crate::reader::split_n(s, n) matches Some((a, b)) ==> crate::reader::split_n(s + more, n)
            == Some((a, b + more)),
{
    if n <= s.len() {
        assert((s + more).take(n as int) =~= s.take(n as int));
        assert((s + more).skip(n as int) =~= s.skip(n as int) + more);
    }
}

proof fn lemma_short_text_more(s: Seq<u8>, more: Seq<u8>)
    ensures
        crate::reader::read_short_text(s) matches Some((t, rest))
            ==> crate::reader::read_short_text(s + more) == Some((t, rest + more)),
{
    lemma_split_more(s, 2, more);
    if let Some((n, rest)) = crate::reader::read_le_n(s, 2) {
        lemma_split_more(rest, n, more);
    }
}

proof fn lemma_long_text_more(s: Seq<u8>, more: Seq<u8>)
    ensures
        crate::commit::read_long_text(s) matches Some((t, rest)) ==> crate::commit::read_long_text(
            s + more,
        ) == Some((t, rest + more)),
{
    lemma_split_more(s, 4, more);
    if let Some((n, rest)) = crate::reader::read_le_n(s, 4) {
        lemma_split_more(rest, n, more);
    }
}

proof fn lemma_cell_more(s: Seq<u8>, more: Seq<u8>)
    ensures
        read_cell(s) matches Some((v, rest)) ==> read_cell(s + more) == Some((v, rest + more)),
{
    lemma_split_more(s, 1, more);
    if let Some((tag, rest)) = crate::reader::split_n(s, 1) {
        lemma_split_more(rest, 8, more);
        lemma_long_text_more(rest, more);
    }
}

proof fn lemma_many_more<A>(
    s: Seq<u8>,
    n: nat,
    f: spec_fn(Seq<u8>) -> Option<(A, Seq<u8>)>,
    got: Seq<A>,
    more: Seq<u8>,
)
    requires
        takes_its_own(f),
    ensures
        read_many(s, n, f, got) matches Some((x, rest)) ==> read_many(s + more, n, f, got) == Some(
            (x, rest + more),
        ),
    decreases n,
{
    if n > 0 {
        if let Some((x, rest)) = f(s) {
            assert(f(s + more) == Some((x, rest + more)));
            lemma_many_more(rest, (n - 1) as nat, f, got.push(x), more);
        }
    }
}

proof fn lemma_texts_more(s: Seq<u8>, more: Seq<u8>)
    ensures
        read_texts(s) matches Some((t, rest)) ==> read_texts(s + more) == Some((t, rest + more)),
{
    let f = text_reader();
    assert forall|a: Seq<u8>, b: Seq<u8>| f(a) matches Some((x, rest)) ==> #[trigger] f(a + b)
        == Some((x, rest + b)) by {
        lemma_short_text_more(a, b);
    }
    lemma_split_more(s, 2, more);
    if let Some((n, rest)) = crate::reader::read_le_n(s, 2) {
        lemma_many_more(rest, n, f, seq![], more);
    }
}

proof fn lemma_row_more(s: Seq<u8>, more: Seq<u8>)
    ensures
        read_row(s) matches Some((t, rest)) ==> read_row(s + more) == Some((t, rest + more)),
{
    let f = cell_reader();
    assert forall|a: Seq<u8>, b: Seq<u8>| f(a) matches Some((x, rest)) ==> #[trigger] f(a + b)
        == Some((x, rest + b)) by {
        lemma_cell_more(a, b);
    }
    lemma_split_more(s, 2, more);
    if let Some((n, rest)) = crate::reader::read_le_n(s, 2) {
        lemma_many_more(rest, n, f, seq![], more);
    }
}

proof fn lemma_rows_more(s: Seq<u8>, more: Seq<u8>)
    ensures
        read_rows(s) matches Some((t, rest)) ==> read_rows(s + more) == Some((t, rest + more)),
{
    let f = row_reader();
    assert forall|a: Seq<u8>, b: Seq<u8>| f(a) matches Some((x, rest)) ==> #[trigger] f(a + b)
        == Some((x, rest + b)) by {
        lemma_row_more(a, b);
    }
    lemma_split_more(s, 4, more);
    if let Some((n, rest)) = crate::reader::read_le_n(s, 4) {
        lemma_many_more(rest, n, f, seq![], more);
    }
}

proof fn lemma_snapshot_whole(s: Seq<u8>, more: Seq<u8>)
    requires
        read_snapshot(s) is Some,
        more.len() > 0,
    ensures
        read_snapshot(s + more) is None,
{
    lemma_split_more(s, 5, more);
    let (head, s1) = crate::reader::split_n(s, 5)->0;
    lemma_texts_more(s1, more);
    let (columns, s2) = read_texts(s1)->0;
    lemma_texts_more(s2, more);
    let (pk, s3) = read_texts(s2)->0;
    lemma_long_text_more(s3, more);
    let (sql, s4) = crate::commit::read_long_text(s3)->0;
    lemma_rows_more(s4, more);
}

/// Bytes that read as a snapshot record do not with anything behind them.
pub proof fn law_record_reading_is_whole(s: Seq<u8>, more: Seq<u8>)
    requires
        read_record(s) is Some,
        more.len() > 0,
    ensures
        read_record(s + more) is None,
{
    lemma_split_more(s, 20, more);
    let (owner, s1) = crate::reader::split_n(s, 20)->0;
    lemma_short_text_more(s1, more);
    let (table, s2) = crate::reader::read_short_text(s1)->0;
    lemma_snapshot_whole(s2, more);
}

/// The bytes of a record that fits are refused when anything is cut off their end or
/// stands behind it.
pub proof fn law_damaged_record_is_refused(
    owner: Seq<u8>,
    table: Seq<char>,
    snap: SnapModel,
    n: int,
    more: Seq<u8>,
)
    requires
        record_fits(owner, table, snap),
        0 <= n < record_bytes(owner, table, snap).len(),
        more.len() > 0,
    ensures
        read_record(record_bytes(owner, table, snap).take(n)) is None,
        read_record(record_bytes(owner, table, snap) + more) is None,
{
    let bytes = record_bytes(owner, table, snap);
    law_record_roundtrip(owner, table, snap);
    law_record_reading_is_whole(bytes, more);
    if read_record(bytes.take(n)) is Some {
        law_record_reading_is_whole(bytes.take(n), bytes.skip(n));
        assert(bytes.take(n) + bytes.skip(n) =~= bytes);
    }
}

/// Bytes that read as a branch table do not with anything behind them.
pub proof fn law_refs_reading_is_whole(s: Seq<u8>, more: Seq<u8>)
    requires
        read_refs(s) is Some,
        more.len() > 0,
    ensures
        read_refs(s + more) is None,
{
    let f = branch_reader();
    assert forall|a: Seq<u8>, b: Seq<u8>| f(a) matches Some((x, rest)) ==> #[trigger] f(a + b)
        == Some((x, rest + b)) by {
        lemma_short_text_more(a, b);
        if let Some((name, rest)) = crate::reader::read_short_text(a) {
            lemma_split_more(rest, 20, b);
        }
    }
    lemma_split_more(s, 1, more);
    let (ver, s1) = crate::reader::split_n(s, 1)->0;
    lemma_short_text_more(s1, more);
    let (name, s2) = crate::reader::read_short_text(s1)->0;
    lemma_split_more(s2, 2, more);
    let (n, s3) = crate::reader::read_le_n(s2, 2)->0;
    lemma_many_more(s3, n, f, seq![], more);
}

/// The bytes of a branch table that fits are refused when anything is cut off their
/// end or stands behind it, and under another first byte.
pub proof fn law_damaged_refs_are_refused(refs: RefsModel, n: int, more: Seq<u8>, first: u8)
    requires
        refs_fit(refs),
        0 <= n < refs_bytes(refs).len(),
        more.len() > 0,
        first != refs_bytes(refs)[0],
    ensures
        read_refs(refs_bytes(refs).take(n)) is None,
        read_refs(refs_bytes(refs) + more) is None,
        read_refs(refs_bytes(refs).update(0, first)) is None,
{
    let bytes = refs_bytes(refs);
    law_refs_roundtrip(refs);
    law_refs_reading_is_whole(bytes, more);
    if read_refs(bytes.take(n)) is Some {
        law_refs_reading_is_whole(bytes.take(n), bytes.skip(n));
        assert(bytes.take(n) + bytes.skip(n) =~= bytes);
    }
    assert(bytes.update(0, first).take(1)[0] == first);
}

/// Inserting a branch adds it and nothing else.
pub proof fn lemma_insert_branch_members(s: Seq<BranchModel>, b: BranchModel)
    ensures
        insert_branch(s, b).len() == s.len() + 1,
        forall|i: int|
            0 <= i < s.len() + 1 ==> #[trigger] insert_branch(s, b)[i] == b || s.contains(
                insert_branch(s, b)[i],
            ),
    decreases s.len(),
{
    let r = insert_branch(s, b);
    if s.len() == 0 || crate::text::text_lt(s.last().0, b.0) {
        assert forall|i: int| 0 <= i < s.len() + 1 implies #[trigger] r[i] == b || s.contains(
            r[i],
        ) by {
            if i < s.len() {
                assert(s[i] == r[i]);
            }
        }
    } else {
        let t = s.drop_last();
        lemma_insert_branch_members(t, b);
        let inner = insert_branch(t, b);
        assert forall|i: int| 0 <= i < s.len() + 1 implies #[trigger] r[i] == b || s.contains(
            r[i],
        ) by {
            if i < inner.len() {
                assert(r[i] == inner[i]);
                if inner[i] != b {
                    let q = choose|q: int| 0 <= q < t.len() && t[q] == inner[i];
                    assert(s[q] == inner[i]);
                }
            } else {
                assert(s[s.len() - 1] == r[i]);
            }
        }
    }
}

/// Sorting branches invents none.
pub proof fn lemma_sorted_branches_members(s: Seq<BranchModel>)
    ensures
        sorted_branches(s).len() <= s.len(),
        forall|i: int|
            0 <= i < sorted_branches(s).len() ==> s.contains(#[trigger] sorted_branches(s)[i]),
    decreases s.len(),
{
    if s.len() > 0 {
        let t = s.drop_last();
        lemma_sorted_branches_members(t);
        let before = sorted_branches(t);
        lemma_insert_branch_members(before, s.last());
        let r = sorted_branches(s);
        assert forall|i: int| 0 <= i < r.len() implies s.contains(#[trigger] r[i]) by {
            if r[i] == s.last() {
                assert(s[s.len() - 1] == r[i]);
            } else {
                if !has_branch(before, s.last().0) {
                    assert(before.contains(r[i]));
                    let q = choose|q: int| 0 <= q < before.len() && before[q] == r[i];
                    assert(t.contains(before[q]));
                } else {
                    assert(t.contains(before[i]));
                }
                let q = choose|q: int| 0 <= q < t.len() && t[q] == r[i];
                assert(s[q] == r[i]);
            }
        }
    }
}

/// A branch table whose parts fit reads back, with its branches by name.
pub proof fn law_refs_roundtrip(refs: RefsModel)
    requires
        refs_fit(refs),
    ensures
        read_refs(refs_bytes(refs)) == Some(
            RefsModel { branches: sorted_branches(refs.branches), ..refs },
        ),
{
    crate::octets::lemma_radix();
    let b = sorted_branches(refs.branches);
    lemma_sorted_branches_members(refs.branches);
    let f = branch_reader();
    let g = branch_writer();
    let body = write_many(b, g);
    let tail = crate::octets::le_bytes(b.len(), 2) + body;
    crate::reader::lemma_split_n(
        seq![1u8],
        crate::reader::short_text(refs.default_branch) + tail,
    );
    crate::reader::lemma_read_short_text(refs.default_branch, tail);
    crate::reader::lemma_read_le_n(b.len(), 2, body);
    assert forall|i: int, r: Seq<u8>| 0 <= i < b.len() implies #[trigger] f(g(b[i]) + r) == Some(
        (b[i], r),
    ) by {
        assert(refs.branches.contains(b[i]));
        let q = choose|q: int| 0 <= q < refs.branches.len() && refs.branches[q] == b[i];
        assert(refs.branches[q].1.len() == 20);
        crate::reader::lemma_read_short_text(b[i].0, b[i].1 + r);
        crate::reader::lemma_split_n(b[i].1, r);
        assert(g(b[i]) + r =~= crate::reader::short_text(b[i].0) + (b[i].1 + r));
    }
    lemma_read_many(b, f, g, seq![], seq![]);
    assert(body + seq![] =~= body);
    assert(seq![] + b =~= b);
}

} // verus!
