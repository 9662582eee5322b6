//! Reading byte sequences front to back.

use vstd::prelude::*;

use crate::octets::{cut, read_be16, read_le};
use crate::text::utf8_text;

verus! {

/// Split off the first `n` bytes, if there are that many.
pub open spec fn split_n(s: Seq<u8>, n: nat) -> Option<(Seq<u8>, Seq<u8>)> {
    if n <= s.len() {
        Some((s.take(n as int), s.skip(n as int)))
    } else {
        None
    }
}

/// Read an `n`-byte number, least significant byte first.
pub open spec fn read_le_n(s: Seq<u8>, n: nat) -> Option<(nat, Seq<u8>)> {
    match split_n(s, n) {
        Some((head, rest)) => Some((crate::octets::le_value(head), rest)),
        None => None,
    }
}

/// Read an `n`-byte number, most significant byte first.
pub open spec fn read_be_n(s: Seq<u8>, n: nat) -> Option<(nat, Seq<u8>)> {
    match split_n(s, n) {
        Some((head, rest)) => Some((crate::octets::be_value(head), rest)),
        None => None,
    }
}

/// Read a text of `n` bytes; bytes that are not UTF-8 are refused.
pub open spec fn read_text_n(s: Seq<u8>, n: nat) -> Option<(Seq<char>, Seq<u8>)> {
    match split_n(s, n) {
        Some((head, rest)) => if vstd::utf8::valid_utf8(head) {
            Some((vstd::utf8::decode_utf8(head), rest))
        } else {
            None
        },
        None => None,
    }
}

/// Read a text behind its length in two bytes, least significant first.
pub open spec fn read_short_text(s: Seq<u8>) -> Option<(Seq<char>, Seq<u8>)> {
    match read_le_n(s, 2) {
        Some((n, rest)) => read_text_n(rest, n),
        None => None,
    }
}

/// A text behind its length in two bytes.
pub open spec fn short_text(t: Seq<char>) -> Seq<u8> {
    crate::octets::le_bytes(crate::text::utf8(t).len(), 2) + crate::text::utf8(t)
}

pub proof fn lemma_split_n(a: Seq<u8>, b: Seq<u8>)
    ensures
        split_n(a + b, a.len()) == Some((a, b)),
{
    assert((a + b).take(a.len() as int) =~= a);
    assert((a + b).skip(a.len() as int) =~= b);
}

pub proof fn lemma_read_le_n(x: nat, n: nat, rest: Seq<u8>)
    requires
        x < crate::octets::radix(n),
    ensures
        read_le_n(crate::octets::le_bytes(x, n) + rest, n) == Some((x, rest)),
{
    crate::octets::lemma_le_roundtrip(x, n);
    lemma_split_n(crate::octets::le_bytes(x, n), rest);
}

pub proof fn lemma_read_be_n(x: nat, n: nat, rest: Seq<u8>)
    requires
        x < crate::octets::radix(n),
    ensures
        read_be_n(crate::octets::be_bytes(x, n) + rest, n) == Some((x, rest)),
{
    crate::octets::lemma_be_roundtrip(x, n);
    lemma_split_n(crate::octets::be_bytes(x, n), rest);
}

pub proof fn lemma_read_text_n(t: Seq<char>, rest: Seq<u8>)
    ensures
        read_text_n(crate::text::utf8(t) + rest, crate::text::utf8(t).len()) == Some((t, rest)),
{
    lemma_split_n(crate::text::utf8(t), rest);
    vstd::utf8::encode_utf8_valid_utf8(t);
    vstd::utf8::encode_utf8_decode_utf8(t);
}

pub proof fn lemma_read_short_text(t: Seq<char>, rest: Seq<u8>)
    requires
        crate::text::utf8(t).len() < 0x1_0000,
    ensures
        read_short_text(short_text(t) + rest) == Some((t, rest)),
{
    crate::octets::lemma_radix();
    let n = crate::text::utf8(t).len();
    lemma_read_le_n(n, 2, crate::text::utf8(t) + rest);
    lemma_read_text_n(t, rest);
    assert(short_text(t) + rest =~= crate::octets::le_bytes(n, 2) + (crate::text::utf8(t) + rest));
}

/// What was split off and what is left make up the whole.
pub proof fn lemma_split_n_whole(s: Seq<u8>, n: nat)
    ensures
        split_n(s, n) matches Some((a, b)) ==> a.len() == n && s == a + b,
{
    if n <= s.len() {
        assert(s =~= s.take(n as int) + s.skip(n as int));
    }
}

/// A position in a byte slice.
pub struct Reader<'a> {
    pub data: &'a [u8],
    pub pos: usize,
}

impl<'a> Reader<'a> {
    pub open spec fn wf(&self) -> bool {
        self.pos <= self.data@.len()
    }

    /// The bytes not read yet.
    pub open spec fn rest(&self) -> Seq<u8> {
        self.data@.skip(self.pos as int)
    }

    pub fn new(data: &'a [u8]) -> (r: Reader<'a>)
        ensures
            r.wf(),
            r.rest() == data@,
            r.data@ == data@,
    {
        assert(data@.skip(0) =~= data@);
        Reader { data, pos: 0 }
    }

    /// Is everything read?
    pub fn at_end(&self) -> (r: bool)
        requires
            self.wf(),
        ensures
            r == (self.rest().len() == 0),
    {
        self.pos == self.data.len()
    }

    /// Take the next `n` bytes.
    pub fn take(&mut self, n: usize) -> (r: Option<Vec<u8>>)
        requires
            old(self).wf(),
        ensures
            final(self).wf(),
            match split_n(old(self).rest(), n as nat) {
                Some((head, rest)) => r matches Some(v) && v@ == head && final(self).rest() == rest,
                None => r is None && final(self).rest() == old(self).rest(),
            },
    {
        if n > self.data.len() - self.pos {
            return None;
        }
        let v = cut(self.data, self.pos, self.pos + n);
        assert(v@ =~= self.rest().take(n as int));
        assert(self.data@.skip(self.pos + n) =~= self.rest().skip(n as int));
        self.pos = self.pos + n;
        Some(v)
    }

    /// Read an `n`-byte number, least significant byte first.
    pub fn le(&mut self, n: usize) -> (r: Option<u64>)
        requires
            old(self).wf(),
            n <= 8,
        ensures
            final(self).wf(),
            match read_le_n(old(self).rest(), n as nat) {
                Some((x, rest)) => r == Some(x as u64) && x < crate::octets::radix(n as nat) && x
                    <= u64::MAX && final(self).rest() == rest,
                None => r is None && final(self).rest() == old(self).rest(),
            },
    {
        if n > self.data.len() - self.pos {
            return None;
        }
        assert(self.data@.subrange(self.pos as int, self.pos + n) =~= self.rest().take(n as int));
        let x: u64 = read_le(self.data, self.pos, n);
        assert(self.data@.skip(self.pos + n) =~= self.rest().skip(n as int));
        self.pos = self.pos + n;
        Some(x)
    }

    /// Read a two-byte number, most significant byte first.
    pub fn be16(&mut self) -> (r: Option<u16>)
        requires
            old(self).wf(),
        ensures
            final(self).wf(),
            match read_be_n(old(self).rest(), 2) {
                Some((x, rest)) => r == Some(x as u16) && x <= u16::MAX && final(self).rest() == rest,
                None => r is None && final(self).rest() == old(self).rest(),
            },
    {
        if 2 > self.data.len() - self.pos {
            return None;
        }
        assert(self.data@.subrange(self.pos as int, self.pos + 2) =~= self.rest().take(2));
        let x: u16 = read_be16(self.data, self.pos);
        assert(self.data@.skip(self.pos + 2) =~= self.rest().skip(2));
        self.pos = self.pos + 2;
        Some(x)
    }

    /// Read a text of `n` bytes.
    pub fn text(&mut self, n: usize) -> (r: Option<String>)
        requires
            old(self).wf(),
        ensures
            final(self).wf(),
            match read_text_n(old(self).rest(), n as nat) {
                Some((t, rest)) => r matches Some(s) && s@ == t && final(self).rest() == rest,
                None => r is None,
            },
    {
        match self.take(n) {
            Some(bytes) => utf8_text(bytes),
            None => None,
        }
    }

    /// Read a text behind its length in two bytes.
    pub fn short_text(&mut self) -> (r: Option<String>)
        requires
            old(self).wf(),
        ensures
            final(self).wf(),
            match read_short_text(old(self).rest()) {
                Some((t, rest)) => r matches Some(s) && s@ == t && final(self).rest() == rest,
                None => r is None,
            },
    {
        proof {
            crate::octets::lemma_radix();
        }
        match self.le(2) {
            Some(n) => self.text(n as usize),
            None => None,
        }
    }
}

} // verus!
