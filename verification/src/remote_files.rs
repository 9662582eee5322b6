//! The files of a `file://` remote: a branch table behind which stands its hash,
//! and the snapshots of a commit as lines of hexadecimal digits.

use vstd::prelude::*;

use crate::chunk::blake3_chunk_hash;
use crate::model::{CommitId, VersionError, VersionResult};
use crate::octets::{bytes_eq, cut, push_all};
use crate::remote_transport::branch_tip;
use crate::remote_wire::{RemoteRefs, SnapshotId};
use crate::text::{chars_of, join, string_of, Same};

verus! {

/// A branch table with its hash behind it.
pub open spec fn sealed(blob: Seq<u8>) -> Seq<u8> {
    blob + crate::chunk::chunk_address(blob)
}

/// The branch table in a file; none where the hash is not its hash.
pub open spec fn unsealed(raw: Seq<u8>) -> Option<Seq<u8>> {
    if raw.len() < 20 {
        None
    } else {
        let blob = raw.take(raw.len() - 20);
        if crate::chunk::chunk_address(blob) == raw.skip(raw.len() - 20) {
            Some(blob)
        } else {
            None
        }
    }
}

/// The tip that has to lie in the history of a new commit before a branch may move
/// to it: none for a new branch, a forced move, or no move.
pub open spec fn tip_below(
    branches: Seq<(Seq<char>, Seq<u8>)>,
    branch: Seq<char>,
    commit: Seq<u8>,
    force: bool,
) -> Option<Seq<u8>> {
    match crate::remote_transport::tip_of(branches, branch) {
        Some(tip) => if force || tip == commit {
            None
        } else {
            Some(tip)
        },
        None => None,
    }
}

/// The tip that has to lie in the history of a new commit.
pub fn tip_to_keep(refs: &RemoteRefs, branch: &str, commit: CommitId, force: bool) -> (r: Option<
    CommitId,
>)
    ensures
        r.deep_view() == tip_below(refs.deep_view().branches, branch@, commit@, force),
{
    match branch_tip(refs, branch) {
        Some(tip) => {
            if force || tip.same(&commit) {
                None
            } else {
                Some(tip)
            }
        },
        None => None,
    }
}

/// Put its hash behind a branch table.
pub fn seal_refs(blob: &[u8]) -> (r: Vec<u8>)
    ensures
        r@ == sealed(blob@),
{
    let mut out: Vec<u8> = Vec::new();
    push_all(&mut out, blob);
    let hash = blake3_chunk_hash(blob);
    push_all(&mut out, hash.0.as_slice());
    assert(out@ =~= sealed(blob@));
    out
}

/// The branch table in a file.
pub fn unseal_refs(raw: &[u8]) -> (r: VersionResult<Vec<u8>>)
    ensures
        match unsealed(raw@) {
            Some(blob) => r matches Ok(v) && v@ == blob,
            None => r matches Err(e) && e is FailedReadRemoteRefs,
        },
{
    if raw.len() < 20 {
        return Err(VersionError::FailedReadRemoteRefs);
    }
    let n: usize = raw.len() - 20;
    let blob = cut(raw, 0, n);
    let hash = cut(raw, n, raw.len());
    assert(blob@ =~= raw@.take(n as int));
    assert(hash@ =~= raw@.skip(n as int));
    let have = blake3_chunk_hash(blob.as_slice());
    if bytes_eq(have.0.as_slice(), hash.as_slice()) {
        Ok(blob)
    } else {
        Err(VersionError::FailedReadRemoteRefs)
    }
}

/// The pieces of a text between line feeds.
pub open spec fn pieces(s: Seq<char>) -> Seq<Seq<char>>
    decreases s.len(),
{
    match crate::text::last_index(s, '\n') {
        None => seq![s],
        Some(i) => if 0 <= i < s.len() {
            pieces(s.take(i)).push(s.skip(i + 1))
        } else {
            seq![s]
        },
    }
}

/// A line that a line feed ends, without a carriage return before it.
pub open spec fn ended_line(p: Seq<char>) -> Seq<char> {
    if p.len() > 0 && p.last() == '\r' {
        p.drop_last()
    } else {
        p
    }
}

/// The snapshots that ended lines name; other lines count for nothing.
pub open spec fn ids_in(lines: Seq<Seq<char>>) -> Seq<Seq<u8>>
    decreases lines.len(),
{
    if lines.len() == 0 {
        seq![]
    } else {
        ids_in(lines.drop_last()) + id_in(ended_line(lines.last()))
    }
}

/// The snapshot that a line names.
pub open spec fn id_in(line: Seq<char>) -> Seq<Seq<u8>> {
    if crate::model::names_id(line) {
        seq![crate::digest::hex_bytes(line)]
    } else {
        seq![]
    }
}

/// The snapshots that a text lists.
pub open spec fn listed_ids(text: Seq<char>) -> Seq<Seq<u8>> {
    ids_in(pieces(text).drop_last()) + id_in(pieces(text).last())
}

/// The text of a list of snapshots.
pub open spec fn list_text(ids: Seq<Seq<u8>>) -> Seq<char> {
    crate::text::joined(
        ids.map_values(|id: Seq<u8>| crate::digest::hex_text(id)),
        "\n"@,
    )
}

/// The text of a list of snapshots.
pub fn write_snaps(snaps: &Vec<SnapshotId>) -> (r: String)
    ensures
        r@ == list_text(snaps.deep_view()),
{
    let ghost m = snaps.deep_view();
    let mut lines: Vec<String> = Vec::new();
    let mut i: usize = 0;
    while i < snaps.len()
        invariant
            i <= snaps@.len(),
            m == snaps.deep_view(),
            lines@.len() == i,
            forall|j: int|
                0 <= j < i ==> (#[trigger] lines@[j])@ == crate::digest::hex_text(m[j]),
        decreases snaps.len() - i,
    {
        assert(m[i as int] == snaps@[i as int]@);
        lines.push(snaps[i].to_hex());
        i = i + 1;
    }
    assert(lines.deep_view() =~= m.map_values(|id: Seq<u8>| crate::digest::hex_text(id)));
    join(&lines, "\n")
}

proof fn lemma_pieces_push(t: Seq<char>, c: char)
    ensures
        pieces(t).len() > 0,
        pieces(t.push(c)) == (if c == '\n' {
            pieces(t).push(seq![])
        } else {
            pieces(t).drop_last().push(pieces(t).last().push(c))
        }),
{
    let s = t.push(c);
    assert(s.drop_last() =~= t);
    lemma_last_index(t, '\n');
    lemma_last_index(s, '\n');
    if c == '\n' {
        assert(s.take(t.len() as int) =~= t);
        assert(s.skip(t.len() as int + 1) =~= seq![]);
    } else {
        match crate::text::last_index(t, '\n') {
            None => {
                assert(pieces(t).drop_last() =~= seq![]);
                assert(pieces(s) =~= pieces(t).drop_last().push(t.push(c)));
            },
            Some(i) => {
                assert(s.take(i) =~= t.take(i));
                assert(s.skip(i + 1) =~= t.skip(i + 1).push(c));
                assert(pieces(t).drop_last() =~= pieces(t.take(i)));
            },
        }
    }
}

proof fn lemma_last_index(s: Seq<char>, c: char)
    ensures
        crate::text::last_index(s, c) matches Some(i) ==> 0 <= i < s.len() && s[i] == c,
        crate::text::last_index(s, c) is None ==> forall|i: int|
            0 <= i < s.len() ==> #[trigger] s[i] != c,
    decreases s.len(),
{
    if s.len() > 0 && s.last() != c {
        lemma_last_index(s.drop_last(), c);
        assert forall|i: int|
            crate::text::last_index(s, c) is None && 0 <= i < s.len() implies #[trigger] s[i]
            != c by {
            if i < s.len() - 1 {
                assert(s.drop_last()[i] == s[i]);
            }
        }
    }
}

fn line_id(line: &Vec<char>, to: usize, out: &mut Vec<SnapshotId>)
    requires
        to <= line@.len(),
    ensures
        final(out).deep_view() == old(out).deep_view() + id_in(line@.take(to as int)),
{
    let ghost before = out.deep_view();
    let text = string_of(line, 0, to);
    assert(text@ =~= line@.take(to as int));
    match CommitId::from_hex(text.as_str()) {
        Ok(id) => {
            out.push(SnapshotId(id.0));
            assert(out.deep_view() =~= before + id_in(text@));
        },
        Err(_) => {
            assert(before + id_in(text@) =~= before);
        },
    }
}

/// The snapshots that a text lists, one on a line.
pub fn read_snaps(text: &str) -> (r: Vec<SnapshotId>)
    ensures
        r.deep_view() == listed_ids(text@),
{
    let chars = chars_of(text);
    let ghost s = text@;
    let ghost mut ended: Seq<Seq<char>> = seq![];
    let mut out: Vec<SnapshotId> = Vec::new();
    let mut line: Vec<char> = Vec::new();
    let mut i: usize = 0;
    proof {
        assert(s.take(0) =~= seq![]);
        assert(pieces(s.take(0)) =~= ended.push(line@));
        assert(out.deep_view() =~= ids_in(ended));
    }
    while i < chars.len()
        invariant
            i <= chars@.len(),
            chars@ == s,
            pieces(s.take(i as int)) == ended.push(line@),
            out.deep_view() == ids_in(ended),
        decreases chars.len() - i,
    {
        let c = chars[i];
        proof {
            lemma_pieces_push(s.take(i as int), c);
            assert(s.take(i + 1) =~= s.take(i as int).push(c));
            assert(ended.push(line@).drop_last() =~= ended);
        }
        if c == '\n' {
            let n = line.len();
            let to: usize = if n > 0 && line[n - 1] == '\r' {
                n - 1
            } else {
                n
            };
            assert(line@.take(to as int) =~= ended_line(line@));
            line_id(&line, to, &mut out);
            proof {
                let more = ended.push(line@);
                assert(more.drop_last() =~= ended);
                ended = more;
            }
            line = Vec::new();
        } else {
            line.push(c);
        }
        i = i + 1;
    }
    proof {
        assert(s.take(i as int) =~= s);
        assert(pieces(s).drop_last() =~= ended);
        assert(line@.take(line@.len() as int) =~= line@);
    }
    let n = line.len();
    line_id(&line, n, &mut out);
    out
}

// ---------------------------------------------------------------------------
// Laws
// ---------------------------------------------------------------------------

/// A sealed branch table comes back as it was.
pub proof fn law_sealed_refs_roundtrip(blob: Seq<u8>)
    requires
        crate::chunk::chunk_address(blob).len() == 20,
    ensures
        unsealed(sealed(blob)) == Some(blob),
{
    let raw = sealed(blob);
    assert(raw.take(raw.len() - 20) =~= blob);
    assert(raw.skip(raw.len() - 20) =~= crate::chunk::chunk_address(blob));
}

/// What opens is what was sealed: a file holds a branch table exactly where it is
/// the sealed form of one.
pub proof fn law_only_sealed_refs_open(raw: Seq<u8>, blob: Seq<u8>)
    requires
        unsealed(raw) == Some(blob),
    ensures
        raw == sealed(blob),
{
    assert(raw =~= raw.take(raw.len() - 20) + raw.skip(raw.len() - 20));
}

proof fn lemma_pieces_joined(parts: Seq<Seq<char>>)
    requires
        parts.len() > 0,
        forall|i: int, j: int|
            0 <= i < parts.len() && 0 <= j < parts[i].len() ==> #[trigger] parts[i][j] != '\n',
    ensures
        pieces(crate::text::joined(parts, "\n"@)) == parts,
    decreases parts.len(),
{
    reveal_strlit("\n");
    let last = parts.last();
    if parts.len() == 1 {
        lemma_no_feed(parts[0]);
        assert(parts =~= seq![parts[0]]);
    } else {
        let d = parts.drop_last();
        assert forall|i: int, j: int|
            0 <= i < d.len() && 0 <= j < d[i].len() implies #[trigger] d[i][j] != '\n' by {
            assert(d[i] == parts[i]);
            assert(parts[i][j] != '\n');
        }
        lemma_pieces_joined(d);
        let a = crate::text::joined(d, "\n"@);
        let s = a + "\n"@ + last;
        assert("\n"@ =~= seq!['\n']);
        assert forall|j: int| 0 <= j < last.len() implies last[j] != '\n' by {
            assert(parts[parts.len() - 1][j] != '\n');
        }
        lemma_last_feed(a, last);
        assert(a + seq!['\n'] + last =~= s);
        assert(s.take(a.len() as int) =~= a);
        assert(s.skip(a.len() as int + 1) =~= last);
        assert(parts =~= d.push(last));
    }
}

proof fn lemma_no_feed(s: Seq<char>)
    requires
        forall|j: int| 0 <= j < s.len() ==> #[trigger] s[j] != '\n',
    ensures
        pieces(s) == seq![s],
{
    lemma_last_index(s, '\n');
}

proof fn lemma_last_feed(a: Seq<char>, b: Seq<char>)
    requires
        forall|j: int| 0 <= j < b.len() ==> #[trigger] b[j] != '\n',
    ensures
        crate::text::last_index(a + seq!['\n'] + b, '\n') == Some(a.len() as int),
    decreases b.len(),
{
    let s = a + seq!['\n'] + b;
    if b.len() > 0 {
        let d = b.drop_last();
        assert forall|j: int| 0 <= j < d.len() implies #[trigger] d[j] != '\n' by {
            assert(b[j] == d[j]);
        }
        lemma_last_feed(a, d);
        assert(s.drop_last() =~= a + seq!['\n'] + d);
        assert(s.last() == b[b.len() - 1]);
    }
}

proof fn lemma_hex_line(id: Seq<u8>)
    requires
        id.len() == 20,
    ensures
        ended_line(crate::digest::hex_text(id)) == crate::digest::hex_text(id),
        id_in(crate::digest::hex_text(id)) == seq![id],
        forall|j: int|
            0 <= j < crate::digest::hex_text(id).len() ==> #[trigger] crate::digest::hex_text(id)[j]
                != '\n',
{
    let t = crate::digest::hex_text(id);
    crate::digest::lemma_hex_roundtrip(id);
    assert forall|j: int| 0 <= j < t.len() implies #[trigger] t[j] != '\n' && t[j] != '\r' by {
        assert(crate::digest::hex_value(t[j]) >= 0);
    }
    assert(t.last() == t[t.len() - 1]);
}

/// A list of snapshots comes back from its text as it was.
pub proof fn law_snapshot_list_roundtrip(ids: Seq<Seq<u8>>)
    requires
        forall|i: int| 0 <= i < ids.len() ==> (#[trigger] ids[i]).len() == 20,
    ensures
        listed_ids(list_text(ids)) == ids,
{
    let lines = ids.map_values(|id: Seq<u8>| crate::digest::hex_text(id));
    if ids.len() == 0 {
        let s = list_text(ids);
        assert(s =~= seq![]);
        lemma_no_feed(s);
        assert(pieces(s).drop_last() =~= seq![]);
        assert(listed_ids(s) =~= ids);
    } else {
        assert forall|i: int, j: int|
            0 <= i < lines.len() && 0 <= j < lines[i].len() implies #[trigger] lines[i][j]
            != '\n' by {
            lemma_hex_line(ids[i]);
        }
        lemma_pieces_joined(lines);
        let d = ids.drop_last();
        assert(lines.drop_last() =~= d.map_values(|id: Seq<u8>| crate::digest::hex_text(id)));
        lemma_ids_in(d);
        lemma_hex_line(ids.last());
        assert(lines.last() == crate::digest::hex_text(ids.last()));
        assert(ids =~= d + seq![ids.last()]);
    }
}

proof fn lemma_ids_in(ids: Seq<Seq<u8>>)
    requires
        forall|i: int| 0 <= i < ids.len() ==> (#[trigger] ids[i]).len() == 20,
    ensures
        ids_in(ids.map_values(|id: Seq<u8>| crate::digest::hex_text(id))) == ids,
    decreases ids.len(),
{
    let lines = ids.map_values(|id: Seq<u8>| crate::digest::hex_text(id));
    if ids.len() > 0 {
        let d = ids.drop_last();
        lemma_ids_in(d);
        assert(lines.drop_last() =~= d.map_values(|id: Seq<u8>| crate::digest::hex_text(id)));
        lemma_hex_line(ids.last());
        assert(ids =~= d + seq![ids.last()]);
    } else {
        assert(ids_in(lines) =~= ids);
    }
}

} // verus!
