//! Numbers as byte sequences, in both byte orders, and slices of bytes.

use vstd::prelude::*;

verus! {

/// The `n` low bytes of `x`, least significant first.
pub open spec fn le_bytes(x: nat, n: nat) -> Seq<u8>
    decreases n,
{
    if n == 0 {
        seq![]
    } else {
        seq![(x % 256) as u8] + le_bytes(x / 256, (n - 1) as nat)
    }
}

/// The number whose bytes are `s`, least significant first.
pub open spec fn le_value(s: Seq<u8>) -> nat
    decreases s.len(),
{
    if s.len() == 0 {
        0
    } else {
        s[0] as nat + 256 * le_value(s.drop_first())
    }
}

/// The `n` low bytes of `x`, most significant first.
pub open spec fn be_bytes(x: nat, n: nat) -> Seq<u8>
    decreases n,
{
    if n == 0 {
        seq![]
    } else {
        be_bytes(x / 256, (n - 1) as nat).push((x % 256) as u8)
    }
}

/// The number whose bytes are `s`, most significant first.
pub open spec fn be_value(s: Seq<u8>) -> nat
    decreases s.len(),
{
    if s.len() == 0 {
        0
    } else {
        256 * be_value(s.drop_last()) + s.last() as nat
    }
}

/// `256^n`.
pub open spec fn radix(n: nat) -> nat
    decreases n,
{
    if n == 0 {
        1
    } else {
        256 * radix((n - 1) as nat)
    }
}

pub proof fn lemma_radix()
    ensures
        radix(1) == 0x100,
        radix(2) == 0x1_0000,
        radix(4) == 0x1_0000_0000,
        radix(8) == 0x1_0000_0000_0000_0000,
{
    reveal_with_fuel(radix, 9);
}

/// Writing a number and reading it back gives the number.
pub proof fn lemma_le_roundtrip(x: nat, n: nat)
    requires
        x < radix(n),
    ensures
        le_bytes(x, n).len() == n,
        le_value(le_bytes(x, n)) == x,
    decreases n,
{
    if n > 0 {
        lemma_le_roundtrip(x / 256, (n - 1) as nat);
        assert(le_bytes(x, n).drop_first() =~= le_bytes(x / 256, (n - 1) as nat));
    }
}

/// Writing a number and reading it back gives the number.
pub proof fn lemma_be_roundtrip(x: nat, n: nat)
    requires
        x < radix(n),
    ensures
        be_bytes(x, n).len() == n,
        be_value(be_bytes(x, n)) == x,
    decreases n,
{
    if n > 0 {
        lemma_be_roundtrip(x / 256, (n - 1) as nat);
        assert(be_bytes(x, n).drop_last() =~= be_bytes(x / 256, (n - 1) as nat));
    }
}

/// Reading bytes and writing the number gives the bytes.
pub proof fn lemma_be_canonical(s: Seq<u8>)
    ensures
        be_value(s) < radix(s.len()),
        be_bytes(be_value(s), s.len()) == s,
    decreases s.len(),
{
    if s.len() > 0 {
        let t = s.drop_last();
        lemma_be_canonical(t);
        let x = be_value(s);
        assert(x % 256 == s.last() as nat);
        assert(x / 256 == be_value(t));
        assert(s =~= t.push(s.last()));
    }
}

pub proof fn lemma_le_bytes_len(x: nat, n: nat)
    ensures
        le_bytes(x, n).len() == n,
    decreases n,
{
    if n > 0 {
        lemma_le_bytes_len(x / 256, (n - 1) as nat);
    }
}

pub proof fn lemma_be_bytes_len(x: nat, n: nat)
    ensures
        be_bytes(x, n).len() == n,
    decreases n,
{
    if n > 0 {
        lemma_be_bytes_len(x / 256, (n - 1) as nat);
    }
}

/// Append the `n` low bytes of `x`, least significant first.
pub fn push_le(buf: &mut Vec<u8>, x: u64, n: usize)
    ensures
        final(buf)@ == old(buf)@ + le_bytes(x as nat, n as nat),
{
    let mut rest: u64 = x;
    let mut left: usize = n;
    assert(buf@ + le_bytes(rest as nat, left as nat) =~= old(buf)@ + le_bytes(x as nat, n as nat));
    while left > 0
        invariant
            buf@ + le_bytes(rest as nat, left as nat) == old(buf)@ + le_bytes(x as nat, n as nat),
        decreases left,
    {
        let ghost before = buf@;
        buf.push((rest % 256) as u8);
        proof {
            let tail = le_bytes((rest / 256) as nat, (left - 1) as nat);
            assert(before + (seq![(rest % 256) as u8] + tail) =~= buf@ + tail);
        }
        rest = rest / 256;
        left = left - 1;
    }
    assert(buf@ + le_bytes(rest as nat, 0) =~= buf@);
}

/// Append the two bytes of `x`, most significant first.
pub fn push_be16(buf: &mut Vec<u8>, x: u16)
    ensures
        final(buf)@ == old(buf)@ + be_bytes(x as nat, 2),
{
    proof {
        reveal_with_fuel(be_bytes, 3);
    }
    buf.push((x / 256) as u8);
    buf.push((x % 256) as u8);
    assert(buf@ =~= old(buf)@ + be_bytes(x as nat, 2));
}

/// Append the four bytes of `x`, most significant first.
pub fn push_be32(buf: &mut Vec<u8>, x: u32)
    ensures
        final(buf)@ == old(buf)@ + be_bytes(x as nat, 4),
{
    proof {
        reveal_with_fuel(be_bytes, 5);
    }
    buf.push((x / 0x100_0000) as u8);
    buf.push((x / 0x1_0000 % 256) as u8);
    buf.push((x / 0x100 % 256) as u8);
    buf.push((x % 256) as u8);
    proof {
        let y = x as nat;
        assert(y / 256 / 256 == y / 0x1_0000);
        assert(y / 256 / 256 / 256 == y / 0x100_0000);
    }
    assert(buf@ =~= old(buf)@ + be_bytes(x as nat, 4));
}

/// Append all of `data`.
pub fn push_all(buf: &mut Vec<u8>, data: &[u8])
    ensures
        final(buf)@ == old(buf)@ + data@,
{
    let mut i: usize = 0;
    while i < data.len()
        invariant
            i <= data.len(),
            buf@ == old(buf)@ + data@.take(i as int),
        decreases data.len() - i,
    {
        buf.push(data[i]);
        i = i + 1;
        assert(data@.take(i as int) =~= data@.take(i - 1).push(data@[i - 1]));
    }
    assert(data@.take(i as int) =~= data@);
}

/// The number whose `n` bytes stand at `pos`, least significant first.
pub fn read_le(data: &[u8], pos: usize, n: usize) -> (x: u64)
    requires
        n <= 8,
        pos + n <= data.len(),
    ensures
        x as nat == le_value(data@.subrange(pos as int, pos + n)),
        (x as nat) < radix(n as nat),
{
    let mut x: u64 = 0;
    let mut i: usize = n;
    let ghost whole = data@.subrange(pos as int, pos + n);
    proof {
        lemma_radix();
        reveal_with_fuel(radix, 9);
    }
    while i > 0
        invariant
            i <= n <= 8,
            pos + n <= data.len(),
            x as nat == le_value(data@.subrange(pos + i, pos + n)),
            (x as nat) < radix((n - i) as nat),
            radix(8) == 0x1_0000_0000_0000_0000,
        decreases i,
    {
        i = i - 1;
        let ghost s = data@.subrange(pos + i, pos + n);
        proof {
            assert(s.drop_first() =~= data@.subrange(pos + i + 1, pos + n));
            lemma_radix_mono((n - i) as nat, 8);
        }
        x = 256 * x + data[pos + i] as u64;
    }
    x
}

pub proof fn lemma_radix_mono(a: nat, b: nat)
    requires
        a <= b,
    ensures
        1 <= radix(a) <= radix(b),
    decreases b,
{
    if b > 0 && a < b {
        lemma_radix_mono(a, (b - 1) as nat);
    } else if a > 0 {
        lemma_radix_mono((a - 1) as nat, (a - 1) as nat);
    }
}

/// The number whose two bytes stand at `pos`, most significant first.
pub fn read_be16(data: &[u8], pos: usize) -> (x: u16)
    requires
        pos + 2 <= data.len(),
    ensures
        x as nat == be_value(data@.subrange(pos as int, pos + 2)),
{
    proof {
        reveal_with_fuel(be_value, 3);
    }
    let ghost s = data@.subrange(pos as int, pos + 2);
    assert(s.drop_last().drop_last() =~= seq![]);
    data[pos] as u16 * 256 + data[pos + 1] as u16
}

/// The number whose four bytes stand at `pos`, most significant first.
pub fn read_be32(data: &[u8], pos: usize) -> (x: u32)
    requires
        pos + 4 <= data.len(),
    ensures
        x as nat == be_value(data@.subrange(pos as int, pos + 4)),
{
    proof {
        reveal_with_fuel(be_value, 5);
    }
    let ghost s = data@.subrange(pos as int, pos + 4);
    assert(s.drop_last().drop_last().drop_last().drop_last() =~= seq![]);
    ((data[pos] as u32 * 256 + data[pos + 1] as u32) * 256 + data[pos + 2] as u32) * 256
        + data[pos + 3] as u32
}

/// The bytes of `data` from `from` up to `to`.
pub fn cut(data: &[u8], from: usize, to: usize) -> (r: Vec<u8>)
    requires
        from <= to <= data.len(),
    ensures
        r@ == data@.subrange(from as int, to as int),
{
    vstd::slice::slice_to_vec(vstd::slice::slice_subrange(data, from, to))
}

/// Are two byte sequences equal?
pub fn bytes_eq(a: &[u8], b: &[u8]) -> (r: bool)
    ensures
        r == (a@ == b@),
{
    if a.len() != b.len() {
        return false;
    }
    let mut i: usize = 0;
    while i < a.len()
        invariant
            i <= a.len() == b.len(),
            forall|j: int| 0 <= j < i ==> a@[j] == b@[j],
        decreases a.len() - i,
    {
        if a[i] != b[i] {
            return false;
        }
        i = i + 1;
    }
    assert(a@ =~= b@);
    true
}

/// Lexicographic order of byte sequences: the first difference decides, and a
/// proper prefix comes first.
pub open spec fn bytes_lt(a: Seq<u8>, b: Seq<u8>) -> bool {
    exists|k: int|
        0 <= k <= a.len() && k < b.len() && #[trigger] a.take(k) == b.take(k) && (k == a.len() || (k
            < a.len() && a[k] < b[k]))
}

/// How two byte sequences are ordered.
#[derive(Clone, Copy, PartialEq, Eq, Structural, Debug)]
pub enum Order {
    Before,
    Equal,
    After,
}

/// Compare two byte sequences lexicographically.
pub fn bytes_order(a: &[u8], b: &[u8]) -> (r: Order)
    ensures
        r == Order::Before <==> bytes_lt(a@, b@),
        r == Order::Equal <==> a@ == b@,
        r == Order::After <==> bytes_lt(b@, a@),
{
    let mut i: usize = 0;
    while i < a.len() && i < b.len() && a[i] == b[i]
        invariant
            i <= a.len(),
            i <= b.len(),
            forall|j: int| 0 <= j < i ==> a@[j] == b@[j],
        decreases a.len() - i,
    {
        i = i + 1;
    }
    assert(a@.take(i as int) =~= b@.take(i as int));
    proof {
        lemma_bytes_lt_total(a@, b@);
    }
    if i == a.len() && i == b.len() {
        assert(a@ =~= b@);
        Order::Equal
    } else if i == a.len() {
        Order::Before
    } else if i == b.len() {
        Order::After
    } else if a[i] < b[i] {
        Order::Before
    } else {
        Order::After
    }
}

proof fn lemma_bytes_lt_antisym(a: Seq<u8>, b: Seq<u8>)
    ensures
        !(bytes_lt(a, b) && bytes_lt(b, a)),
        !bytes_lt(a, a),
{
    if bytes_lt(a, a) {
        let k = choose|k: int|
            0 <= k <= a.len() && k < a.len() && #[trigger] a.take(k) == a.take(k) && (k == a.len() || (k
                < a.len() && a[k] < a[k]));
    }
    if bytes_lt(a, b) && bytes_lt(b, a) {
        let k = choose|k: int|
            0 <= k <= a.len() && k < b.len() && #[trigger] a.take(k) == b.take(k) && (k == a.len() || (k
                < a.len() && a[k] < b[k]));
        let m = choose|m: int|
            0 <= m <= b.len() && m < a.len() && #[trigger] b.take(m) == a.take(m) && (m == b.len() || (m
                < b.len() && b[m] < a[m]));
        if k < m {
            assert(b.take(m)[k] == a.take(m)[k]);
        } else if m < k {
            assert(a.take(k)[m] == b.take(k)[m]);
        }
    }
}

/// The order is total and strict.
pub proof fn lemma_bytes_lt_total(a: Seq<u8>, b: Seq<u8>)
    ensures
        !bytes_lt(a, a),
        !bytes_lt(b, b),
        !(bytes_lt(a, b) && bytes_lt(b, a)),
        bytes_lt(a, b) || a == b || bytes_lt(b, a),
{
    lemma_bytes_lt_antisym(a, b);
    lemma_bytes_lt_antisym(b, b);
    assert(a.take(0) =~= b.take(0));
    lemma_bytes_lt_connected(a, b, 0);
}

proof fn lemma_bytes_lt_connected(a: Seq<u8>, b: Seq<u8>, k: int)
    requires
        0 <= k <= a.len(),
        k <= b.len(),
        a.take(k) == b.take(k),
    ensures
        bytes_lt(a, b) || a == b || bytes_lt(b, a),
    decreases a.len() - k,
{
    if k == a.len() && k == b.len() {
        assert(a.take(k) =~= a);
        assert(b.take(k) =~= b);
    } else if k < a.len() && k < b.len() && a[k] == b[k] {
        assert(a.take(k + 1) =~= a.take(k).push(a[k]));
        assert(b.take(k + 1) =~= b.take(k).push(b[k]));
        lemma_bytes_lt_connected(a, b, k + 1);
    }
}

/// The order is transitive.
pub proof fn lemma_bytes_lt_trans(a: Seq<u8>, b: Seq<u8>, c: Seq<u8>)
    requires
        bytes_lt(a, b),
        bytes_lt(b, c),
    ensures
        bytes_lt(a, c),
{
    let k = choose|k: int|
        0 <= k <= a.len() && k < b.len() && #[trigger] a.take(k) == b.take(k) && (k == a.len() || (k
            < a.len() && a[k] < b[k]));
    let m = choose|m: int|
        0 <= m <= b.len() && m < c.len() && #[trigger] b.take(m) == c.take(m) && (m == b.len() || (m
            < b.len() && b[m] < c[m]));
    if k <= m {
        assert(a.take(k) =~= c.take(k)) by {
            assert forall|j: int| 0 <= j < k implies a[j] == c[j] by {
                assert(a.take(k)[j] == b.take(k)[j]);
                assert(b.take(m)[j] == c.take(m)[j]);
            }
        }
        if k < m {
            assert(b.take(m)[k] == c.take(m)[k]);
        }
    } else {
        assert(a.take(m) =~= c.take(m)) by {
            assert forall|j: int| 0 <= j < m implies a[j] == c[j] by {
                assert(a.take(k)[j] == b.take(k)[j]);
                assert(b.take(m)[j] == c.take(m)[j]);
            }
        }
        assert(a.take(k)[m] == b.take(k)[m]);
    }
}

} // verus!
