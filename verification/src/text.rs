//! Strings as sequences of characters: the small vocabulary the rest of the
//! library uses to compare, cut, join and print text.

use vstd::prelude::*;

verus! {

broadcast use vstd::string::group_string_axioms;

/// `String::push` appends one character at the end.
pub assume_specification[ String::push ](s: &mut String, c: char)
    ensures
        final(s)@ == old(s)@.push(c),
;

/// The characters with the Unicode property `White_Space`.
pub open spec fn white_space(c: char) -> bool {
    ||| 0x9 <= c as u32 <= 0xd
    ||| c as u32 == 0x20
    ||| c as u32 == 0x85
    ||| c as u32 == 0xa0
    ||| c as u32 == 0x1680
    ||| 0x2000 <= c as u32 <= 0x200a
    ||| c as u32 == 0x2028
    ||| c as u32 == 0x2029
    ||| c as u32 == 0x202f
    ||| c as u32 == 0x205f
    ||| c as u32 == 0x3000
}

/// `char::is_whitespace` tests the Unicode property `White_Space`.
pub assume_specification[ char::is_whitespace ](c: char) -> (b: bool)
    ensures
        b == white_space(c),
;

/// `String::from_utf8` accepts exactly the valid UTF-8 byte sequences and
/// decodes them.
#[verifier::external_body]
pub(crate) fn utf8_text(bytes: Vec<u8>) -> (r: Option<String>)
    ensures
        r is Some <==> vstd::utf8::valid_utf8(bytes@),
        r matches Some(s) ==> s@ == vstd::utf8::decode_utf8(bytes@),
{
    String::from_utf8(bytes).ok()
}

/// The bytes of a string in UTF-8.
pub open spec fn utf8(s: Seq<char>) -> Seq<u8> {
    vstd::utf8::encode_utf8(s)
}

/// Two texts with the same UTF-8 bytes are the same text.
pub proof fn lemma_utf8_injective(a: Seq<char>, b: Seq<char>)
    ensures
        utf8(a) == utf8(b) <==> a == b,
{
    vstd::utf8::encode_utf8_decode_utf8(a);
    vstd::utf8::encode_utf8_decode_utf8(b);
}

/// The meaning of a vector of bytes is the bytes.
pub broadcast proof fn lemma_bytes_deep_view(v: Vec<u8>)
    ensures
        #[trigger] v.deep_view() == v@,
{
    assert(v.deep_view() =~= v@);
}

/// Values that can be copied without changing what they stand for.
pub trait Dup: DeepView + Sized {
    fn dup(&self) -> (r: Self)
        ensures
            r.deep_view() == self.deep_view(),
    ;
}

/// Values whose meaning can be compared.
pub trait Same: DeepView + Sized {
    fn same(&self, other: &Self) -> (r: bool)
        ensures
            r == (self.deep_view() == other.deep_view()),
    ;
}

impl Dup for String {
    fn dup(&self) -> (r: String) {
        self.clone()
    }
}

impl Same for String {
    fn same(&self, other: &String) -> (r: bool) {
        *self == *other
    }
}

impl Dup for u8 {
    fn dup(&self) -> (r: u8) {
        *self
    }
}

impl Same for u8 {
    fn same(&self, other: &u8) -> (r: bool) {
        *self == *other
    }
}

impl<T: Dup> Dup for Vec<T> {
    fn dup(&self) -> (r: Vec<T>) {
        let mut r: Vec<T> = Vec::new();
        let mut i: usize = 0;
        while i < self.len()
            invariant
                i <= self.len(),
                r.len() == i,
                forall|j: int| 0 <= j < i ==> (#[trigger] r@[j]).deep_view() == self@[j].deep_view(),
            decreases self.len() - i,
        {
            r.push(self[i].dup());
            i = i + 1;
        }
        assert(r.deep_view() =~= self.deep_view());
        r
    }
}

impl<T: Same> Same for Vec<T> {
    fn same(&self, other: &Vec<T>) -> (r: bool) {
        if self.len() != other.len() {
            assert(self.deep_view().len() != other.deep_view().len());
            return false;
        }
        let mut i: usize = 0;
        while i < self.len()
            invariant
                i <= self.len(),
                self.len() == other.len(),
                forall|j: int| 0 <= j < i ==> (#[trigger] self@[j]).deep_view() == other@[j].deep_view(),
            decreases self.len() - i,
        {
            if !self[i].same(&other[i]) {
                assert(self.deep_view()[i as int] != other.deep_view()[i as int]);
                return false;
            }
            i = i + 1;
        }
        assert(self.deep_view() =~= other.deep_view());
        true
    }
}

impl<T: Dup> Dup for Option<T> {
    fn dup(&self) -> (r: Option<T>) {
        match self {
            Some(x) => Some(x.dup()),
            None => None,
        }
    }
}

impl<T: Same> Same for Option<T> {
    fn same(&self, other: &Option<T>) -> (r: bool) {
        match (self, other) {
            (Some(a), Some(b)) => a.same(b),
            (None, None) => true,
            _ => false,
        }
    }
}

/// Are two texts equal?
pub fn str_eq(a: &str, b: &str) -> (r: bool)
    ensures
        r == (a@ == b@),
{
    let x = a.as_bytes();
    let y = b.as_bytes();
    proof {
        lemma_utf8_injective(a@, b@);
    }
    if x.len() != y.len() {
        return false;
    }
    let mut i: usize = 0;
    while i < x.len()
        invariant
            i <= x.len(),
            x.len() == y.len(),
            x@ == utf8(a@),
            y@ == utf8(b@),
            forall|j: int| 0 <= j < i ==> x@[j] == y@[j],
            utf8(a@) == utf8(b@) <==> a@ == b@,
        decreases x.len() - i,
    {
        if x[i] != y[i] {
            return false;
        }
        i = i + 1;
    }
    assert(x@ =~= y@);
    true
}

/// The characters of a string.
pub fn chars_of(s: &str) -> (r: Vec<char>)
    ensures
        r@ == s@,
{
    let mut r: Vec<char> = Vec::new();
    for c in it: s.chars()
        invariant
            r@ == it.seq().take(it.index() as int),
            it.seq() == s@,
    {
        r.push(c);
    }
    r
}

/// The string with the given characters from `from` up to `to`.
pub fn string_of(v: &Vec<char>, from: usize, to: usize) -> (r: String)
    requires
        from <= to <= v.len(),
    ensures
        r@ == v@.subrange(from as int, to as int),
{
    let mut r = String::new();
    let mut i: usize = from;
    while i < to
        invariant
            from <= i <= to <= v.len(),
            r@ == v@.subrange(from as int, i as int),
        decreases to - i,
    {
        r.push(v[i]);
        i = i + 1;
    }
    r
}

/// Two texts in a row.
pub fn cat2(a: &str, b: &str) -> (r: String)
    ensures
        r@ == a@ + b@,
{
    let mut r = a.to_owned();
    r.append(b);
    r
}

/// Three texts in a row.
pub fn cat3(a: &str, b: &str, c: &str) -> (r: String)
    ensures
        r@ == a@ + b@ + c@,
{
    let mut r = cat2(a, b);
    r.append(c);
    r
}

/// Five texts in a row.
pub fn cat5(a: &str, b: &str, c: &str, d: &str, e: &str) -> (r: String)
    ensures
        r@ == a@ + b@ + c@ + d@ + e@,
{
    let mut r = cat3(a, b, c);
    r.append(d);
    r.append(e);
    r
}

/// The decimal digit for `n < 10`.
pub open spec fn digit(n: nat) -> char {
    ('0' as int + n) as char
}

/// `n` in decimal, without leading zeros.
pub open spec fn decimal(n: nat) -> Seq<char>
    decreases n,
{
    if n < 10 {
        seq![digit(n)]
    } else {
        decimal(n / 10).push(digit(n % 10))
    }
}

/// A whole number in decimal, with a minus sign where it is negative.
pub open spec fn decimal_int(n: int) -> Seq<char> {
    if n < 0 {
        seq!['-'] + decimal((-n) as nat)
    } else {
        decimal(n as nat)
    }
}

/// The character of a decimal digit.
fn digit_char(n: u64) -> (c: char)
    requires
        n < 10,
    ensures
        c == digit(n as nat),
{
    (48u8 + n as u8) as char
}

/// Print `n` in decimal.
pub fn decimal_text(n: u64) -> (r: String)
    ensures
        r@ == decimal(n as nat),
    decreases n,
{
    if n < 10 {
        let mut r = String::new();
        r.push(digit_char(n));
        assert(r@ =~= seq![digit(n as nat)]);
        r
    } else {
        let mut r = decimal_text(n / 10);
        r.push(digit_char(n % 10));
        r
    }
}

/// Print `n` in decimal.
pub fn decimal_int_text(n: i64) -> (r: String)
    ensures
        r@ == decimal_int(n as int),
{
    if n < 0 {
        let m: u64 = (-(n + 1)) as u64 + 1;
        let mut r = String::new();
        r.push('-');
        assert(r@ =~= seq!['-']);
        r.append(decimal_text(m).as_str());
        r
    } else {
        decimal_text(n as u64)
    }
}

/// Does `pat` stand in `s` at `i`?
pub open spec fn stands_at(s: Seq<char>, pat: Seq<char>, i: int) -> bool {
    i + pat.len() <= s.len() && s.subrange(i, i + pat.len()) == pat
}

/// The first place at or after `i` where `pat` stands in `s`.
pub open spec fn find_from(s: Seq<char>, pat: Seq<char>, i: int) -> Option<int>
    decreases s.len() - i + 1,
{
    if i + pat.len() > s.len() {
        None
    } else if stands_at(s, pat, i) {
        Some(i)
    } else {
        find_from(s, pat, i + 1)
    }
}

/// The texts before and behind the first `pat` in `s`.
pub open spec fn split_once(s: Seq<char>, pat: Seq<char>) -> Option<(Seq<char>, Seq<char>)> {
    match find_from(s, pat, 0) {
        Some(i) => Some((s.take(i), s.skip(i + pat.len()))),
        None => None,
    }
}

/// The last index of `c` in `s`.
pub open spec fn last_index(s: Seq<char>, c: char) -> Option<int>
    decreases s.len(),
{
    if s.len() == 0 {
        None
    } else if s.last() == c {
        Some(s.len() - 1)
    } else {
        last_index(s.drop_last(), c)
    }
}

/// The texts before and behind the last `c` in `s`.
pub open spec fn rsplit_once(s: Seq<char>, c: char) -> Option<(Seq<char>, Seq<char>)> {
    match last_index(s, c) {
        Some(i) => Some((s.take(i), s.skip(i + 1))),
        None => None,
    }
}

pub proof fn lemma_find_from(s: Seq<char>, pat: Seq<char>, i: int)
    ensures
        find_from(s, pat, i) matches Some(k) ==> i <= k && stands_at(s, pat, k) && k + pat.len()
            <= s.len(),
    decreases s.len() - i + 1,
{
    if i + pat.len() <= s.len() && !stands_at(s, pat, i) {
        lemma_find_from(s, pat, i + 1);
    }
}

/// Both parts of a split are no longer than the text without the pattern.
pub proof fn lemma_split_once(s: Seq<char>, pat: Seq<char>)
    ensures
        split_once(s, pat) matches Some((a, b)) ==> a.len() + pat.len() + b.len() == s.len(),
{
    lemma_find_from(s, pat, 0);
}

pub proof fn lemma_last_index(s: Seq<char>, c: char)
    ensures
        match last_index(s, c) {
            Some(i) => 0 <= i < s.len() && s[i] == c && forall|j: int| i < j < s.len() ==> s[j] != c,
            None => forall|j: int| 0 <= j < s.len() ==> s[j] != c,
        },
    decreases s.len(),
{
    if s.len() > 0 && s.last() != c {
        lemma_last_index(s.drop_last(), c);
        assert forall|j: int| 0 <= j < s.len() - 1 implies s[j] == s.drop_last()[j] by {}
    }
}

/// Both parts of a split at the last `c` are shorter than the text.
pub proof fn lemma_rsplit_once(s: Seq<char>, c: char)
    ensures
        rsplit_once(s, c) matches Some((a, b)) ==> a.len() + b.len() + 1 == s.len(),
{
    lemma_last_index(s, c);
}

/// Does `pat` stand in `v` at `i`?
pub fn matches_at(v: &Vec<char>, pat: &Vec<char>, i: usize) -> (r: bool)
    requires
        i + pat.len() <= v.len(),
    ensures
        r == stands_at(v@, pat@, i as int),
{
    let mut k: usize = 0;
    while k < pat.len()
        invariant
            k <= pat.len(),
            i + pat.len() <= v.len(),
            forall|j: int| 0 <= j < k ==> v@[i + j] == pat@[j],
        decreases pat.len() - k,
    {
        if v[i + k] != pat[k] {
            assert(v@.subrange(i as int, i + pat.len())[k as int] != pat@[k as int]);
            return false;
        }
        k = k + 1;
    }
    assert(v@.subrange(i as int, i + pat.len()) =~= pat@);
    true
}

/// The first place at or after `from` where `pat` stands in `v`.
pub fn find_pat(v: &Vec<char>, pat: &Vec<char>, from: usize) -> (r: Option<usize>)
    requires
        from <= v.len(),
    ensures
        match r {
            Some(i) => find_from(v@, pat@, from as int) == Some(i as int) && from <= i && i
                + pat.len() <= v.len() && stands_at(v@, pat@, i as int),
            None => find_from(v@, pat@, from as int) is None,
        },
{
    let mut i: usize = from;
    while pat.len() <= v.len() - i
        invariant
            from <= i <= v.len(),
            find_from(v@, pat@, i as int) == find_from(v@, pat@, from as int),
        decreases v.len() - i,
    {
        if matches_at(v, pat, i) {
            return Some(i);
        }
        if i == v.len() {
            assert(find_from(v@, pat@, i + 1) is None);
            return None;
        }
        i = i + 1;
    }
    None
}

/// Split a text at the first `pat`.
pub fn cut_once(s: &str, pat: &Vec<char>) -> (r: Option<(String, String)>)
    ensures
        match split_once(s@, pat@) {
            Some((a, b)) => r matches Some((x, y)) && x@ == a && y@ == b,
            None => r is None,
        },
{
    let v = chars_of(s);
    match find_pat(&v, pat, 0) {
        Some(i) => {
            let a = string_of(&v, 0, i);
            let b = string_of(&v, i + pat.len(), v.len());
            assert(a@ =~= s@.take(i as int));
            assert(b@ =~= s@.skip(i + pat@.len()));
            Some((a, b))
        },
        None => None,
    }
}

/// The last index of `c` in `v`.
pub fn rfind(v: &Vec<char>, c: char) -> (r: Option<usize>)
    ensures
        match r {
            Some(i) => last_index(v@, c) == Some(i as int) && i < v.len(),
            None => last_index(v@, c) is None,
        },
{
    let mut i: usize = v.len();
    assert(v@.take(i as int) =~= v@);
    while i > 0
        invariant
            i <= v.len(),
            last_index(v@.take(i as int), c) == last_index(v@, c),
        decreases i,
    {
        assert(v@.take(i as int).drop_last() =~= v@.take(i - 1));
        i = i - 1;
        if v[i] == c {
            return Some(i);
        }
    }
    None
}

/// Split a text at the last `c`.
pub fn rcut_once(s: &str, c: char) -> (r: Option<(String, String)>)
    ensures
        match rsplit_once(s@, c) {
            Some((a, b)) => r matches Some((x, y)) && x@ == a && y@ == b,
            None => r is None,
        },
{
    let v = chars_of(s);
    match rfind(&v, c) {
        Some(i) => {
            let a = string_of(&v, 0, i);
            let b = string_of(&v, i + 1, v.len());
            assert(a@ =~= s@.take(i as int));
            assert(b@ =~= s@.skip(i + 1));
            Some((a, b))
        },
        None => None,
    }
}

/// Does `c` occur in `s`?
pub fn has_char(s: &str, c: char) -> (r: bool)
    ensures
        r == s@.contains(c),
{
    let v = chars_of(s);
    let mut i: usize = 0;
    while i < v.len()
        invariant
            i <= v.len(),
            v@ == s@,
            forall|j: int| 0 <= j < i ==> v@[j] != c,
        decreases v.len() - i,
    {
        if v[i] == c {
            assert(s@[i as int] == c);
            return true;
        }
        i = i + 1;
    }
    false
}

/// Is `c` a decimal digit?
pub open spec fn is_digit(c: char) -> bool {
    '0' <= c <= '9'
}

/// The number that decimal digits stand for.
pub open spec fn digits_value(s: Seq<char>) -> nat
    decreases s.len(),
{
    if s.len() == 0 {
        0
    } else {
        (10 * digits_value(s.drop_last()) + (s.last() as int - '0' as int)) as nat
    }
}

/// Is `s` one or more decimal digits?
pub open spec fn all_digits(s: Seq<char>) -> bool {
    s.len() > 0 && forall|i: int| 0 <= i < s.len() ==> is_digit(#[trigger] s[i])
}

/// Read an unsigned number up to `max`: decimal digits, perhaps behind a plus
/// sign.
pub open spec fn parse_unsigned(s: Seq<char>, max: nat) -> Option<nat> {
    let body = if s.len() > 0 && s[0] == '+' {
        s.skip(1)
    } else {
        s
    };
    if all_digits(body) && digits_value(body) <= max {
        Some(digits_value(body))
    } else {
        None
    }
}

/// A number in decimal is made of digits and reads back.
pub proof fn lemma_decimal_reads(n: nat, max: nat)
    requires
        n <= max,
    ensures
        all_digits(decimal(n)),
        digits_value(decimal(n)) == n,
        parse_unsigned(decimal(n), max) == Some(n),
    decreases n,
{
    let d = decimal(n);
    if n < 10 {
        assert(d.drop_last() =~= seq![]);
        reveal_with_fuel(digits_value, 2);
    } else {
        let front = decimal(n / 10);
        lemma_decimal_reads(n / 10, max);
        assert(d.drop_last() =~= front);
        assert forall|i: int| 0 <= i < d.len() implies is_digit(#[trigger] d[i]) by {
            if i < front.len() {
                assert(d[i] == front[i]);
            }
        }
    }
    assert(is_digit(d[0]));
}

/// A search finds the first place.
pub proof fn lemma_find_first(s: Seq<char>, pat: Seq<char>, i: int)
    requires
        0 <= i,
    ensures
        match find_from(s, pat, i) {
            Some(k) => i <= k && k + pat.len() <= s.len() && stands_at(s, pat, k) && forall|j: int|
                i <= j < k ==> !#[trigger] stands_at(s, pat, j),
            None => forall|j: int|
                i <= j && j + pat.len() <= s.len() ==> !#[trigger] stands_at(s, pat, j),
        },
    decreases s.len() - i + 1,
{
    if i + pat.len() <= s.len() && !stands_at(s, pat, i) {
        lemma_find_first(s, pat, i + 1);
    }
}

/// Read an unsigned number up to `max`.
pub fn read_unsigned(s: &str, max: u64) -> (r: Option<u64>)
    ensures
        match r {
            Some(n) => parse_unsigned(s@, max as nat) == Some(n as nat),
            None => parse_unsigned(s@, max as nat) is None,
        },
{
    let v = chars_of(s);
    let start: usize = if v.len() > 0 && v[0] == '+' {
        1
    } else {
        0
    };
    let ghost body = v@.skip(start as int);
    assert(start == 0 ==> body =~= s@);
    if start == v.len() {
        return None;
    }
    let mut n: u64 = 0;
    let mut over: bool = false;
    let mut i: usize = start;
    assert(body.take(0) =~= seq![]);
    while i < v.len()
        invariant
            start <= i <= v.len(),
            start < v.len(),
            v@ == s@,
            body == v@.skip(start as int),
            start == 1 ==> s@.len() > 0 && s@[0] == '+',
            start == 0 ==> body == s@ && !(s@.len() > 0 && s@[0] == '+'),
            start <= 1,
            forall|j: int| 0 <= j < i - start ==> is_digit(#[trigger] body[j]),
            !over ==> n as nat == digits_value(body.take(i - start)) && n <= max,
            over ==> digits_value(body.take(i - start)) > max,
        decreases v.len() - i,
    {
        let c = v[i];
        assert(body[i - start] == c);
        if c < '0' || c > '9' {
            assert(!is_digit(body[i - start]));
            return None;
        }
        assert(body.take(i - start + 1).drop_last() =~= body.take(i - start));
        let d: u64 = c as u64 - 48;
        if !over {
            if n > max / 10 || max - 10 * n < d {
                over = true;
            } else {
                n = 10 * n + d;
            }
        }
        i = i + 1;
    }
    assert(body.take(body.len() as int) =~= body);
    if over {
        None
    } else {
        Some(n)
    }
}

/// Text order: that of the UTF-8 bytes.
pub open spec fn text_lt(a: Seq<char>, b: Seq<char>) -> bool {
    crate::octets::bytes_lt(utf8(a), utf8(b))
}

pub proof fn lemma_text_lt_total(a: Seq<char>, b: Seq<char>)
    ensures
        !text_lt(a, a),
        !text_lt(b, b),
        !(text_lt(a, b) && text_lt(b, a)),
        text_lt(a, b) || a == b || text_lt(b, a),
{
    lemma_utf8_injective(a, b);
    crate::octets::lemma_bytes_lt_total(utf8(a), utf8(b));
}

proof fn lemma_utf8_behind(a: Seq<char>, b: Seq<char>)
    ensures
        utf8(a + b) == utf8(a) + utf8(b),
    decreases a.len(),
{
    if a.len() == 0 {
        assert(a + b =~= b);
        assert(utf8(a) + utf8(b) =~= utf8(b));
    } else {
        assert((a + b).drop_first() =~= a.drop_first() + b);
        lemma_utf8_behind(a.drop_first(), b);
        assert(utf8(a + b) =~= utf8(a) + utf8(b));
    }
}

proof fn lemma_utf8_ascii(c: char)
    requires
        c as u32 <= 0x7f,
    ensures
        utf8(seq![c]) == seq![c as u8],
{
    let x = c as u32;
    assert(vstd::utf8::leading_byte_width_1(x) == x as u8) by (bit_vector)
        requires
            x <= 0x7f,
    ;
    reveal_with_fuel(vstd::utf8::encode_utf8, 2);
    assert(seq![c].drop_first() =~= seq![]);
    assert(utf8(seq![c]) =~= seq![c as u8]);
}

/// Texts are ordered as in a dictionary of their bytes: a text comes before every longer
/// one that begins with it, and where two texts part, the lesser character comes first;
/// characters beyond ASCII are left open.
pub proof fn law_text_order(
    front: Seq<char>,
    c: char,
    d: char,
    left: Seq<char>,
    right: Seq<char>,
)
    requires
        (c as u32) < (d as u32) <= 0x7f,
    ensures
        text_lt(front, front + seq![c] + left),
        !text_lt(front + seq![c] + left, front),
        text_lt(front + seq![c] + left, front + seq![d] + right),
        !text_lt(front + seq![d] + right, front + seq![c] + left),
        front + seq![c] + left != front + seq![d] + right,
{
    let a = front + seq![c] + left;
    let b = front + seq![d] + right;
    lemma_utf8_behind(front, seq![c]);
    lemma_utf8_behind(front + seq![c], left);
    lemma_utf8_behind(front, seq![d]);
    lemma_utf8_behind(front + seq![d], right);
    lemma_utf8_ascii(c);
    lemma_utf8_ascii(d);
    let f = utf8(front);
    let k = f.len() as int;
    assert(utf8(a).take(k) =~= f);
    assert(utf8(b).take(k) =~= f);
    assert(f.take(k) =~= f);
    assert(utf8(a)[k] == c as u8);
    assert(utf8(b)[k] == d as u8);
    assert(utf8(a).take(k) == utf8(b).take(k));
    lemma_text_lt_total(front, a);
    lemma_text_lt_total(a, b);
}

/// Compare two texts.
pub fn str_order(a: &str, b: &str) -> (r: crate::octets::Order)
    ensures
        r == crate::octets::Order::Before <==> text_lt(a@, b@),
        r == crate::octets::Order::Equal <==> a@ == b@,
        r == crate::octets::Order::After <==> text_lt(b@, a@),
{
    proof {
        lemma_utf8_injective(a@, b@);
    }
    crate::octets::bytes_order(a.as_bytes(), b.as_bytes())
}

/// Are the texts strictly increasing?
pub open spec fn texts_sorted(s: Seq<Seq<char>>) -> bool {
    forall|i: int, j: int|
        0 <= i < j < s.len() ==> text_lt(#[trigger] s[i], #[trigger] s[j])
}

/// Add a text to a sorted list of distinct texts.
pub fn insert_sorted(v: &mut Vec<String>, s: String)
    requires
        texts_sorted(old(v).deep_view()),
    ensures
        texts_sorted(final(v).deep_view()),
        final(v).deep_view().to_set() == old(v).deep_view().to_set().insert(s@),
{
    let ghost before = v.deep_view();
    let ghost t = s@;
    let mut i: usize = 0;
    while i < v.len()
        invariant
            i <= v.len(),
            *v == *old(v),
            before == v.deep_view(),
            t == s@,
            texts_sorted(before),
            forall|j: int| 0 <= j < i ==> text_lt(#[trigger] before[j], t),
        decreases v.len() - i,
    {
        assert(before[i as int] == v@[i as int]@);
        match str_order(v[i].as_str(), s.as_str()) {
            crate::octets::Order::Before => {
                i = i + 1;
            },
            crate::octets::Order::Equal => {
                assert(before.to_set().contains(t));
                assert(before.to_set().insert(t) =~= before.to_set());
                return ;
            },
            crate::octets::Order::After => {
                proof {
                    assert forall|j: int| i <= j < before.len() implies text_lt(
                        t,
                        #[trigger] before[j],
                    ) by {
                        if j > i {
                            crate::octets::lemma_bytes_lt_trans(
                                utf8(t),
                                utf8(before[i as int]),
                                utf8(before[j]),
                            );
                        }
                    }
                }
                v.insert(i, s);
                proof {
                    lemma_insert_sorted(before, i as int, t);
                    assert(v.deep_view() =~= before.insert(i as int, t));
                }
                return ;
            },
        }
    }
    v.push(s);
    proof {
        lemma_insert_sorted(before, i as int, t);
        assert(v.deep_view() =~= before.insert(i as int, t));
    }
}

proof fn lemma_insert_sorted(s: Seq<Seq<char>>, i: int, t: Seq<char>)
    requires
        texts_sorted(s),
        0 <= i <= s.len(),
        forall|j: int| 0 <= j < i ==> text_lt(#[trigger] s[j], t),
        forall|j: int| i <= j < s.len() ==> text_lt(t, #[trigger] s[j]),
    ensures
        texts_sorted(s.insert(i, t)),
        s.insert(i, t).to_set() == s.to_set().insert(t),
{
    let r = s.insert(i, t);
    assert forall|a: int, b: int| 0 <= a < b < r.len() implies text_lt(
        #[trigger] r[a],
        #[trigger] r[b],
    ) by {
        let x = if a < i {
            a
        } else {
            a - 1
        };
        let y = if b < i {
            b
        } else {
            b - 1
        };
        if a != i {
            assert(r[a] == s[x]);
        }
        if b != i {
            assert(r[b] == s[y]);
        }
    }
    assert forall|x: Seq<char>| r.to_set().contains(x) <==> s.to_set().insert(t).contains(x) by {
        if r.contains(x) && x != t {
            let j = choose|j: int| 0 <= j < r.len() && r[j] == x;
            let y = if j < i {
                j
            } else {
                j - 1
            };
            assert(s[y] == x);
        }
        if s.contains(x) {
            let j = choose|j: int| 0 <= j < s.len() && s[j] == x;
            let y = if j < i {
                j
            } else {
                j + 1
            };
            assert(r[y] == x);
        }
        assert(r[i] == t);
    }
    assert(r.to_set() =~= s.to_set().insert(t));
}

/// The text in upper case, as the Unicode tables have it.
pub uninterp spec fn uppercase(s: Seq<char>) -> Seq<char>;

/// An ASCII letter in upper case; any other character as it is.
pub open spec fn ascii_upper(c: char) -> char {
    if 'a' <= c <= 'z' {
        (c as int - 32) as char
    } else {
        c
    }
}

/// A text with its ASCII letters in upper case.
pub open spec fn ascii_uppercase(s: Seq<char>) -> Seq<char> {
    s.map_values(|c: char| ascii_upper(c))
}

/// Does a text hold ASCII characters only?
pub open spec fn ascii_only(s: Seq<char>) -> bool {
    forall|i: int| 0 <= i < s.len() ==> (#[trigger] s[i]) as u32 <= 0x7f
}

/// `str::to_uppercase`: the upper-case form of the whole text. Of a text of
/// ASCII characters it is the text with the letters `a` to `z` raised; what it
/// is for other characters is not stated.
#[verifier::external_body]
pub(crate) fn upper(s: &str) -> (r: String)
    ensures
        r@ == uppercase(s@),
        ascii_only(s@) ==> r@ == ascii_uppercase(s@),
{
    s.to_uppercase()
}

/// Raise one ASCII letter.
fn upper_char(c: char) -> (r: char)
    ensures
        r == ascii_upper(c),
{
    if 'a' <= c && c <= 'z' {
        ((c as u8) - 32) as char
    } else {
        c
    }
}

/// Are two texts equal but for the case of ASCII letters?
pub fn eq_ignore_case(a: &str, b: &str) -> (r: bool)
    ensures
        r == (ascii_uppercase(a@) == ascii_uppercase(b@)),
{
    let x = chars_of(a);
    let y = chars_of(b);
    if x.len() != y.len() {
        assert(ascii_uppercase(a@).len() != ascii_uppercase(b@).len());
        return false;
    }
    let mut i: usize = 0;
    while i < x.len()
        invariant
            i <= x.len(),
            x.len() == y.len(),
            x@ == a@,
            y@ == b@,
            forall|j: int| 0 <= j < i ==> ascii_upper(x@[j]) == ascii_upper(y@[j]),
        decreases x.len() - i,
    {
        if upper_char(x[i]) != upper_char(y[i]) {
            assert(ascii_uppercase(a@)[i as int] != ascii_uppercase(b@)[i as int]);
            return false;
        }
        i = i + 1;
    }
    assert(ascii_uppercase(a@) =~= ascii_uppercase(b@));
    true
}

/// A text without the white space in front.
pub open spec fn trim_start(s: Seq<char>) -> Seq<char>
    decreases s.len(),
{
    if s.len() > 0 && white_space(s[0]) {
        trim_start(s.drop_first())
    } else {
        s
    }
}

/// A text without the white space behind.
pub open spec fn trim_end(s: Seq<char>) -> Seq<char>
    decreases s.len(),
{
    if s.len() > 0 && white_space(s.last()) {
        trim_end(s.drop_last())
    } else {
        s
    }
}

/// A text without the white space around it.
pub open spec fn trimmed(s: Seq<char>) -> Seq<char> {
    trim_end(trim_start(s))
}

/// What stands behind a text matters to its front only where the text is blank.
proof fn lemma_trim_start_more(s: Seq<char>, more: Seq<char>)
    ensures
        trim_start(s + more) == (if trim_start(s).len() > 0 {
            trim_start(s) + more
        } else {
            trim_start(more)
        }),
    decreases s.len(),
{
    if s.len() == 0 {
        assert(s + more =~= more);
    } else if white_space(s[0]) {
        assert((s + more).drop_first() =~= s.drop_first() + more);
        lemma_trim_start_more(s.drop_first(), more);
    }
}

/// Nothing is left of white space.
proof fn lemma_trim_start_blank(s: Seq<char>)
    requires
        forall|i: int| 0 <= i < s.len() ==> white_space(#[trigger] s[i]),
    ensures
        trim_start(s) == Seq::<char>::empty(),
    decreases s.len(),
{
    if s.len() > 0 {
        let d = s.drop_first();
        assert forall|i: int| 0 <= i < d.len() implies white_space(#[trigger] d[i]) by {
            assert(d[i] == s[i + 1]);
        }
        lemma_trim_start_blank(d);
    } else {
        assert(s =~= seq![]);
    }
}

/// White space behind a text makes no difference to it without such.
proof fn lemma_trim_end_blank(s: Seq<char>, blank: Seq<char>)
    requires
        forall|i: int| 0 <= i < blank.len() ==> white_space(#[trigger] blank[i]),
    ensures
        trim_end(s + blank) == trim_end(s),
    decreases blank.len(),
{
    if blank.len() > 0 {
        assert((s + blank).last() == blank[blank.len() - 1]);
        assert((s + blank).drop_last() =~= s + blank.drop_last());
        lemma_trim_end_blank(s, blank.drop_last());
    } else {
        assert(s + blank =~= s);
    }
}

/// White space around a text makes no difference to it without such.
pub proof fn lemma_trimmed_blanks(left: Seq<char>, s: Seq<char>, right: Seq<char>)
    requires
        forall|i: int| 0 <= i < left.len() ==> white_space(#[trigger] left[i]),
        forall|i: int| 0 <= i < right.len() ==> white_space(#[trigger] right[i]),
    ensures
        trimmed(left + s + right) == trimmed(s),
{
    assert(left + s + right =~= left + (s + right));
    lemma_trim_start_blank(left);
    lemma_trim_start_more(left, s + right);
    lemma_trim_start_more(s, right);
    lemma_trim_start_blank(right);
    if trim_start(s).len() > 0 {
        lemma_trim_end_blank(trim_start(s), right);
    } else {
        assert(trim_start(s) =~= seq![]);
    }
}

/// A text without the white space around it.
pub fn trim(s: &str) -> (r: String)
    ensures
        r@ == trimmed(s@),
{
    let v = chars_of(s);
    let mut i: usize = 0;
    assert(v@.skip(0) =~= v@);
    while i < v.len() && v[i].is_whitespace()
        invariant
            i <= v.len(),
            trim_start(v@.skip(i as int)) == trim_start(v@),
        decreases v.len() - i,
    {
        assert(v@.skip(i as int).drop_first() =~= v@.skip(i + 1));
        i = i + 1;
    }
    let ghost body = v@.skip(i as int);
    let mut k: usize = v.len();
    assert(v@.subrange(i as int, k as int) =~= body);
    while k > i && v[k - 1].is_whitespace()
        invariant
            i <= k <= v.len(),
            trim_end(v@.subrange(i as int, k as int)) == trim_end(body),
        decreases k,
    {
        assert(v@.subrange(i as int, k as int).drop_last() =~= v@.subrange(i as int, k - 1));
        k = k - 1;
    }
    string_of(&v, i, k)
}

/// Texts in a row with `sep` between them.
pub open spec fn joined(parts: Seq<Seq<char>>, sep: Seq<char>) -> Seq<char>
    decreases parts.len(),
{
    if parts.len() == 0 {
        seq![]
    } else if parts.len() == 1 {
        parts[0]
    } else {
        joined(parts.drop_last(), sep) + sep + parts.last()
    }
}

/// Texts in a row with `sep` between them.
pub fn join(parts: &Vec<String>, sep: &str) -> (r: String)
    ensures
        r@ == joined(parts.deep_view(), sep@),
{
    let ghost p = parts.deep_view();
    let mut r = String::new();
    let mut i: usize = 0;
    assert(p.take(0) =~= seq![]);
    while i < parts.len()
        invariant
            i <= parts@.len(),
            p == parts.deep_view(),
            r@ == joined(p.take(i as int), sep@),
        decreases parts.len() - i,
    {
        assert(p[i as int] == parts@[i as int]@);
        assert(p.take(i + 1).drop_last() =~= p.take(i as int));
        if i > 0 {
            r.append(sep);
        }
        r.append(parts[i].as_str());
        assert(i == 0 ==> r@ =~= p[0]);
        i = i + 1;
    }
    assert(p.take(i as int) =~= p);
    r
}

/// Is the text in the list?
pub fn has_text(v: &Vec<String>, s: &str) -> (r: bool)
    ensures
        r == v.deep_view().contains(s@),
{
    let mut i: usize = 0;
    while i < v.len()
        invariant
            i <= v@.len(),
            forall|j: int| 0 <= j < i ==> (#[trigger] v@[j])@ != s@,
        decreases v.len() - i,
    {
        if str_eq(v[i].as_str(), s) {
            assert(v.deep_view()[i as int] == s@);
            return true;
        }
        i = i + 1;
    }
    assert forall|j: int| 0 <= j < v@.len() implies v.deep_view()[j] != s@ by {
        assert(v.deep_view()[j] == v@[j]@);
    }
    false
}

/// Do two lists hold the same texts, in whatever order?
pub fn same_texts(a: &Vec<String>, b: &Vec<String>) -> (r: bool)
    ensures
        r == (a.deep_view().to_multiset() == b.deep_view().to_multiset()),
{
    broadcast use vstd::seq_lib::group_to_multiset_ensures;

    let ghost x = a.deep_view();
    let ghost y = b.deep_view();
    let mut left: Vec<String> = b.dup();
    let mut i: usize = 0;
    assert(x.take(0) =~= seq![]);
    assert(x.take(0).to_multiset() =~= vstd::multiset::Multiset::empty());
    assert(x.take(0).to_multiset().add(left.deep_view().to_multiset()) =~= y.to_multiset());
    while i < a.len()
        invariant
            i <= a@.len(),
            x == a.deep_view(),
            y == b.deep_view(),
            x.take(i as int).to_multiset().add(left.deep_view().to_multiset()) == y.to_multiset(),
        decreases a.len() - i,
    {
        broadcast use vstd::seq_lib::group_to_multiset_ensures;

        let ghost t = x[i as int];
        assert(t == a@[i as int]@);
        assert(x.take(i + 1) =~= x.take(i as int).push(t));
        let mut k: usize = 0;
        while k < left.len() && !str_eq(left[k].as_str(), a[i].as_str())
            invariant
                k <= left@.len(),
                i < a@.len(),
                t == a@[i as int]@,
                forall|j: int| 0 <= j < k ==> (#[trigger] left@[j])@ != t,
            decreases left.len() - k,
        {
            k = k + 1;
        }
        let ghost rest = left.deep_view();
        if k == left.len() {
            proof {
                assert(!rest.contains(t)) by {
                    if rest.contains(t) {
                        let j = choose|j: int| 0 <= j < rest.len() && rest[j] == t;
                        assert(left@[j]@ == t);
                    }
                }
                assert(rest.to_multiset().count(t) == 0);
                let z = x.skip(i + 1);
                assert(x =~= x.take(i + 1) + z);
                vstd::seq_lib::lemma_multiset_commutative(x.take(i + 1), z);
                assert(x.to_multiset().count(t) >= x.take(i + 1).to_multiset().count(t));
                assert(x.take(i + 1).to_multiset().count(t) == x.take(i as int).to_multiset().count(
                    t,
                ) + 1);
                assert(y.to_multiset().count(t) == x.take(i as int).to_multiset().count(t));
            }
            return false;
        }
        assert(rest[k as int] == t);
        left.remove(k);
        proof {
            assert(left.deep_view() =~= rest.remove(k as int));
            assert(x.take(i + 1).to_multiset().add(left.deep_view().to_multiset())
                =~= y.to_multiset());
        }
        i = i + 1;
    }
    assert(x.take(i as int) =~= x);
    if left.len() == 0 {
        proof {
            assert(left.deep_view() =~= seq![]);
            assert(x.to_multiset() =~= y.to_multiset());
        }
        true
    } else {
        proof {
            let e = left.deep_view()[0];
            assert(left.deep_view().contains(e));
            assert(y.to_multiset().count(e) > x.to_multiset().count(e));
        }
        false
    }
}

// ---------------------------------------------------------------------------
// Words between white space
// ---------------------------------------------------------------------------

/// Words that are done, and the one under way.
pub open spec fn word_fold(s: Seq<char>) -> (Seq<Seq<char>>, Seq<char>)
    decreases s.len(),
{
    if s.len() == 0 {
        (seq![], seq![])
    } else {
        let (done, word) = word_fold(s.drop_last());
        if !white_space(s.last()) {
            (done, word.push(s.last()))
        } else if word.len() > 0 {
            (done.push(word), seq![])
        } else {
            (done, word)
        }
    }
}

/// The words of a text, which white space sets apart.
pub open spec fn split_words(s: Seq<char>) -> Seq<Seq<char>> {
    let (done, word) = word_fold(s);
    if word.len() > 0 {
        done.push(word)
    } else {
        done
    }
}

/// The words of a text, which white space sets apart.
pub fn words_of(s: &str) -> (r: Vec<String>)
    ensures
        r.deep_view() == split_words(s@),
{
    let v = chars_of(s);
    let mut done: Vec<String> = Vec::new();
    let mut word = String::new();
    let mut i: usize = 0;
    assert(v@.take(0) =~= seq![]);
    assert(done.deep_view() =~= seq![]);
    assert(word@ =~= seq![]);
    while i < v.len()
        invariant
            i <= v@.len(),
            word_fold(v@.take(i as int)) == (done.deep_view(), word@),
        decreases v.len() - i,
    {
        assert(v@.take(i + 1).drop_last() =~= v@.take(i as int));
        assert(v@.take(i + 1).last() == v@[i as int]);
        let ghost before = done.deep_view();
        if !v[i].is_whitespace() {
            word.push(v[i]);
        } else if !word.as_str().is_empty() {
            let ghost w = word@;
            done.push(word);
            assert(done.deep_view() =~= before.push(w));
            word = String::new();
            assert(word@ =~= seq![]);
        }
        i = i + 1;
    }
    assert(v@.take(i as int) =~= s@);
    if !word.as_str().is_empty() {
        let ghost before = done.deep_view();
        let ghost w = word@;
        done.push(word);
        assert(done.deep_view() =~= before.push(w));
    }
    done
}

/// Is a text made of white space alone?
pub open spec fn is_blank(s: Seq<char>) -> bool {
    forall|i: int| 0 <= i < s.len() ==> white_space(#[trigger] s[i])
}

/// A text is white space, what is left without it, and white space; what is left neither
/// begins nor ends with any.
pub proof fn law_trimming_takes_the_ends(s: Seq<char>) -> (ends: (Seq<char>, Seq<char>))
    ensures
        s == ends.0 + trimmed(s) + ends.1,
        is_blank(ends.0) && is_blank(ends.1),
        trimmed(s).len() > 0 ==> !white_space(trimmed(s)[0]) && !white_space(trimmed(s).last()),
{
    let a = lemma_trim_start_cut(s);
    let t = trim_start(s);
    let b = lemma_trim_end_cut(t);
    assert(s =~= a + trimmed(s) + b);
    if trimmed(s).len() > 0 {
        assert(t[0] == trimmed(s)[0]);
    }
    (a, b)
}

proof fn lemma_trim_start_cut(s: Seq<char>) -> (a: Seq<char>)
    ensures
        s == a + trim_start(s),
        is_blank(a),
        trim_start(s).len() > 0 ==> !white_space(trim_start(s)[0]),
    decreases s.len(),
{
    if s.len() > 0 && white_space(s[0]) {
        let d = s.drop_first();
        let b = lemma_trim_start_cut(d);
        let a = seq![s[0]] + b;
        assert(s =~= seq![s[0]] + d);
        assert(a + trim_start(s) =~= seq![s[0]] + (b + trim_start(d)));
        assert forall|i: int| 0 <= i < a.len() implies white_space(#[trigger] a[i]) by {
            if i > 0 {
                assert(a[i] == b[i - 1]);
            }
        }
        a
    } else {
        let a = Seq::<char>::empty();
        assert(a + s =~= s);
        a
    }
}

proof fn lemma_trim_end_cut(s: Seq<char>) -> (b: Seq<char>)
    ensures
        s == trim_end(s) + b,
        is_blank(b),
        trim_end(s).len() > 0 ==> !white_space(trim_end(s).last()) && trim_end(s)[0] == s[0],
    decreases s.len(),
{
    if s.len() > 0 && white_space(s.last()) {
        let d = s.drop_last();
        let a = lemma_trim_end_cut(d);
        let b = a.push(s.last());
        assert(s =~= d.push(s.last()));
        assert(trim_end(s) + b =~= (trim_end(d) + a).push(s.last()));
        assert forall|i: int| 0 <= i < b.len() implies white_space(#[trigger] b[i]) by {
            if i < a.len() {
                assert(b[i] == a[i]);
            }
        }
        b
    } else {
        let b = Seq::<char>::empty();
        assert(s + b =~= s);
        b
    }
}

/// The first word of a text, which white space ends, stands before the words of the rest,
/// and white space in front says nothing.
pub proof fn law_words_come_one_by_one(w: Seq<char>, c: char, rest: Seq<char>)
    requires
        w.len() > 0,
        forall|i: int| 0 <= i < w.len() ==> !white_space(#[trigger] w[i]),
        white_space(c),
    ensures
        split_words(w) == seq![w],
        split_words(w + seq![c] + rest) == seq![w] + split_words(rest),
        split_words(seq![c] + rest) == split_words(rest),
        split_words(seq![]) == Seq::<Seq<char>>::empty(),
{
    lemma_word_fold(w);
    assert(Seq::<Seq<char>>::empty().push(w) =~= seq![w]);
    let x = w + seq![c];
    assert(x.drop_last() =~= w);
    assert(word_fold(x) == (seq![w], Seq::<char>::empty()));
    lemma_fold_behind(x, rest);
    assert(seq![c].drop_last() =~= seq![]);
    assert(word_fold(seq![]) == (Seq::<Seq<char>>::empty(), Seq::<char>::empty()));
    assert(word_fold(seq![c]) == (Seq::<Seq<char>>::empty(), Seq::<char>::empty()));
    lemma_fold_behind(seq![c], rest);
    let (done, word) = word_fold(rest);
    assert(Seq::<Seq<char>>::empty() + done =~= done);
    if word.len() > 0 {
        assert((seq![w] + done).push(word) =~= seq![w] + done.push(word));
    }
}

proof fn lemma_word_fold(w: Seq<char>)
    requires
        forall|i: int| 0 <= i < w.len() ==> !white_space(#[trigger] w[i]),
    ensures
        word_fold(w) == (Seq::<Seq<char>>::empty(), w),
    decreases w.len(),
{
    if w.len() > 0 {
        let d = w.drop_last();
        assert forall|i: int| 0 <= i < d.len() implies !white_space(#[trigger] d[i]) by {
            assert(d[i] == w[i]);
        }
        lemma_word_fold(d);
        assert(!white_space(w[w.len() - 1]));
        assert(d.push(w.last()) =~= w);
    } else {
        assert(w =~= seq![]);
    }
}

proof fn lemma_fold_behind(x: Seq<char>, rest: Seq<char>)
    requires
        word_fold(x).1.len() == 0,
    ensures
        word_fold(x + rest) == (word_fold(x).0 + word_fold(rest).0, word_fold(rest).1),
    decreases rest.len(),
{
    if rest.len() == 0 {
        assert(x + rest =~= x);
        assert(word_fold(x).0 + Seq::<Seq<char>>::empty() =~= word_fold(x).0);
        assert(word_fold(x).1 =~= seq![]);
    } else {
        let d = rest.drop_last();
        assert((x + rest).drop_last() =~= x + d);
        lemma_fold_behind(x, d);
        let (done, word) = word_fold(d);
        assert(word_fold(x).0 + done.push(word) =~= (word_fold(x).0 + done).push(word));
    }
}

/// Upper case changes the letters from `a` to `z` alone, each to its capital, and white
/// space is what one expects of blanks, tabs and line ends.
pub proof fn law_letters_and_blanks(c: char, s: Seq<char>, i: int)
    requires
        0 <= i < s.len(),
    ensures
        ascii_uppercase(s).len() == s.len(),
        ascii_uppercase(s)[i] == ascii_upper(s[i]),
        ('a' <= c <= 'z') ==> ascii_upper(c) as u32 == c as u32 - 'a' as u32 + 'A' as u32,
        !('a' <= c <= 'z') ==> ascii_upper(c) == c,
        white_space(' ') && white_space('\n') && white_space('\t') && white_space('\r'),
        ('a' <= c <= 'z') || ('A' <= c <= 'Z') || ('0' <= c <= '9') ==> !white_space(c),
{
}

/// Texts joined have the separator between them and nowhere else: one more text comes
/// behind one more separator.
pub proof fn law_joining_sets_texts_apart(parts: Seq<Seq<char>>, more: Seq<char>, sep: Seq<char>)
    ensures
        joined(seq![], sep) == Seq::<char>::empty(),
        joined(seq![more], sep) == more,
        parts.len() > 0 ==> joined(parts.push(more), sep) == joined(parts, sep) + sep + more,
{
    assert(parts.push(more).drop_last() =~= parts);
}

} // verus!
