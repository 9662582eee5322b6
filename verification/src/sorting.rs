//! Stable sorting by byte keys.

use vstd::prelude::*;

use crate::octets::{bytes_order, Order};

verus! {

broadcast use crate::text::lemma_bytes_deep_view;

/// A sort key: byte strings, compared one by one.
pub type Key = Seq<Seq<u8>>;

/// Does `a` come before `b`?
pub open spec fn key_lt(a: Key, b: Key) -> bool
    decreases a.len(),
{
    if b.len() == 0 {
        false
    } else if a.len() == 0 {
        true
    } else if a[0] == b[0] {
        key_lt(a.drop_first(), b.drop_first())
    } else {
        crate::octets::bytes_lt(a[0], b[0])
    }
}

/// Of two keys one comes first, or they are the same.
pub proof fn lemma_key_lt_total(a: Key, b: Key)
    ensures
        !key_lt(a, a),
        !(key_lt(a, b) && key_lt(b, a)),
        key_lt(a, b) || a == b || key_lt(b, a),
    decreases a.len(),
{
    if a.len() > 0 {
        lemma_key_lt_total(a.drop_first(), a.drop_first());
        crate::octets::lemma_bytes_lt_total(a[0], a[0]);
    }
    if a.len() > 0 && b.len() > 0 {
        lemma_key_lt_total(a.drop_first(), b.drop_first());
        crate::octets::lemma_bytes_lt_total(a[0], b[0]);
        if a[0] == b[0] && a.drop_first() == b.drop_first() {
            assert(a =~= seq![a[0]] + a.drop_first());
            assert(b =~= seq![b[0]] + b.drop_first());
        }
    }
    if a.len() == 0 && b.len() == 0 {
        assert(a =~= b);
    }
}

pub proof fn lemma_key_lt_trans(a: Key, b: Key, c: Key)
    requires
        key_lt(a, b),
        key_lt(b, c),
    ensures
        key_lt(a, c),
    decreases a.len(),
{
    if a.len() > 0 {
        if a[0] == b[0] && b[0] == c[0] {
            lemma_key_lt_trans(a.drop_first(), b.drop_first(), c.drop_first());
        } else if a[0] != b[0] && b[0] != c[0] {
            crate::octets::lemma_bytes_lt_trans(a[0], b[0], c[0]);
            crate::octets::lemma_bytes_lt_total(a[0], c[0]);
        }
    }
}

/// What does not come after goes on not to.
proof fn lemma_key_le_trans(a: Key, b: Key, c: Key)
    requires
        !key_lt(b, a),
        !key_lt(c, b),
    ensures
        !key_lt(c, a),
{
    lemma_key_lt_total(a, b);
    lemma_key_lt_total(b, c);
    lemma_key_lt_total(a, c);
    if key_lt(c, a) {
        if a != b {
            lemma_key_lt_trans(c, a, b);
        }
    }
}

/// No item comes before one that stands in front of it.
pub open spec fn sorted_by<A>(s: Seq<A>, k: spec_fn(A) -> Key) -> bool {
    forall|i: int, j: int|
        0 <= i < j < s.len() ==> !key_lt(k(#[trigger] s[j]), k(#[trigger] s[i]))
}

/// Put an item behind the last one that does not come after it.
pub open spec fn insert_by<A>(s: Seq<A>, x: A, k: spec_fn(A) -> Key) -> Seq<A>
    decreases s.len(),
{
    if s.len() == 0 || !key_lt(k(x), k(s.last())) {
        s.push(x)
    } else {
        insert_by(s.drop_last(), x, k).push(s.last())
    }
}

/// The items in the order of their keys; items with the same key stay in their
/// order.
pub open spec fn sort_by<A>(s: Seq<A>, k: spec_fn(A) -> Key) -> Seq<A>
    decreases s.len(),
{
    if s.len() == 0 {
        seq![]
    } else {
        insert_by(sort_by(s.drop_last(), k), s.last(), k)
    }
}

proof fn lemma_insert_by<A>(s: Seq<A>, x: A, k: spec_fn(A) -> Key)
    requires
        sorted_by(s, k),
    ensures
        sorted_by(insert_by(s, x, k), k),
        insert_by(s, x, k).len() == s.len() + 1,
        insert_by(s, x, k).to_multiset() == s.to_multiset().insert(x),
        forall|i: int|
            0 <= i < s.len() + 1 ==> #[trigger] insert_by(s, x, k)[i] == x || s.contains(
                insert_by(s, x, k)[i],
            ),
    decreases s.len(),
{
    let r = insert_by(s, x, k);
    if s.len() == 0 || !key_lt(k(x), k(s.last())) {
        assert forall|i: int, j: int| 0 <= i < j < r.len() implies !key_lt(
            k(#[trigger] r[j]),
            k(#[trigger] r[i]),
        ) by {
            if j == s.len() {
                assert(r[i] == s[i]);
                lemma_key_lt_total(k(s.last()), k(s.last()));
                lemma_key_le_trans(k(s[i]), k(s.last()), k(x));
            } else {
                assert(r[i] == s[i] && r[j] == s[j]);
            }
        }
        assert forall|i: int| 0 <= i < s.len() + 1 implies #[trigger] r[i] == x || s.contains(r[i]) by {
            if i < s.len() {
                assert(s[i] == r[i]);
            }
        }
        s.to_multiset_ensures();
    } else {
        let t = s.drop_last();
        let inner = insert_by(t, x, k);
        lemma_insert_by(t, x, k);
        let last = s.last();
        lemma_key_lt_total(k(x), k(last));
        assert forall|i: int, j: int| 0 <= i < j < r.len() implies !key_lt(
            k(#[trigger] r[j]),
            k(#[trigger] r[i]),
        ) by {
            if j == inner.len() {
                assert(r[i] == inner[i]);
                if inner[i] != x {
                    let q = choose|q: int| 0 <= q < t.len() && t[q] == inner[i];
                    assert(s[q] == t[q]);
                }
            } else {
                assert(r[i] == inner[i] && r[j] == inner[j]);
            }
        }
        assert forall|i: int| 0 <= i < s.len() + 1 implies #[trigger] r[i] == x || s.contains(r[i]) by {
            if i < inner.len() {
                assert(r[i] == inner[i]);
                if inner[i] != x {
                    let q = choose|q: int| 0 <= q < t.len() && t[q] == inner[i];
                    assert(s[q] == inner[i]);
                }
            } else {
                assert(s[s.len() - 1] == r[i]);
            }
        }
        assert(s =~= t.push(last));
        t.to_multiset_ensures();
        inner.to_multiset_ensures();
        assert(r.to_multiset() =~= s.to_multiset().insert(x));
    }
}

/// Sorting keeps the items and puts them in order.
pub proof fn law_sort_by<A>(s: Seq<A>, k: spec_fn(A) -> Key)
    ensures
        sorted_by(sort_by(s, k), k),
        sort_by(s, k).to_multiset() == s.to_multiset(),
        sort_by(s, k).len() == s.len(),
    decreases s.len(),
{
    if s.len() > 0 {
        let t = s.drop_last();
        law_sort_by(t, k);
        lemma_insert_by(sort_by(t, k), s.last(), k);
        assert(s =~= t.push(s.last()));
        t.to_multiset_ensures();
    } else {
        assert(s =~= seq![]);
    }
}

/// Sorting what is in order changes nothing.
pub proof fn law_sorted_stays<A>(s: Seq<A>, k: spec_fn(A) -> Key)
    requires
        sorted_by(s, k),
    ensures
        sort_by(s, k) == s,
    decreases s.len(),
{
    if s.len() > 0 {
        let t = s.drop_last();
        assert forall|i: int, j: int| 0 <= i < j < t.len() implies !key_lt(
            k(#[trigger] t[j]),
            k(#[trigger] t[i]),
        ) by {
            assert(t[i] == s[i] && t[j] == s[j]);
        }
        law_sorted_stays(t, k);
        if t.len() > 0 {
            assert(t.last() == s[t.len() - 1]);
            assert(!key_lt(k(s[s.len() - 1]), k(s[t.len() - 1])));
        }
        assert(t.push(s.last()) =~= s);
    } else {
        assert(s =~= seq![]);
    }
}

proof fn lemma_sorted_unique<A>(a: Seq<A>, b: Seq<A>, k: spec_fn(A) -> Key)
    requires
        sorted_by(a, k),
        sorted_by(b, k),
        a.to_multiset() == b.to_multiset(),
        forall|i: int, j: int|
            0 <= i < a.len() && 0 <= j < a.len() && k(#[trigger] a[i]) == k(#[trigger] a[j])
                ==> a[i] == a[j],
    ensures
        a == b,
    decreases a.len(),
{
    a.to_multiset_ensures();
    b.to_multiset_ensures();
    assert(a.len() == b.len());
    if a.len() == 0 {
        assert(a =~= b);
    } else {
        let x = a.last();
        let y = b.last();
        assert(a[a.len() - 1] == x && b[b.len() - 1] == y);
        assert(a.contains(x) && b.contains(y));
        assert(b.to_multiset().count(x) > 0);
        assert(a.to_multiset().count(y) > 0);
        assert(b.contains(x) && a.contains(y));
        let p = choose|p: int| 0 <= p < b.len() && b[p] == x;
        let q = choose|q: int| 0 <= q < a.len() && a[q] == y;
        lemma_key_lt_total(k(x), k(y));
        assert(p < b.len() - 1 ==> !key_lt(k(y), k(x)));
        assert(q < a.len() - 1 ==> !key_lt(k(x), k(y)));
        assert(x == y);
        let s = a.drop_last();
        let t = b.drop_last();
        assert(a =~= s.push(x));
        assert(b =~= t.push(y));
        s.to_multiset_ensures();
        t.to_multiset_ensures();
        assert(s.to_multiset() =~= a.to_multiset().remove(x));
        assert(t.to_multiset() =~= b.to_multiset().remove(x));
        assert forall|i: int, j: int| 0 <= i < j < s.len() implies !key_lt(
            k(#[trigger] s[j]),
            k(#[trigger] s[i]),
        ) by {
            assert(s[i] == a[i] && s[j] == a[j]);
        }
        assert forall|i: int, j: int| 0 <= i < j < t.len() implies !key_lt(
            k(#[trigger] t[j]),
            k(#[trigger] t[i]),
        ) by {
            assert(t[i] == b[i] && t[j] == b[j]);
        }
        assert forall|i: int, j: int|
            0 <= i < s.len() && 0 <= j < s.len() && k(#[trigger] s[i]) == k(
                #[trigger] s[j],
            ) implies s[i] == s[j] by {
            assert(s[i] == a[i] && s[j] == a[j]);
        }
        lemma_sorted_unique(s, t, k);
    }
}

/// The order of the items before sorting does not matter where equal keys mean
/// equal items.
pub proof fn law_sort_ignores_order<A>(a: Seq<A>, b: Seq<A>, k: spec_fn(A) -> Key)
    requires
        a.to_multiset() == b.to_multiset(),
        forall|i: int, j: int|
            0 <= i < a.len() && 0 <= j < a.len() && k(#[trigger] a[i]) == k(#[trigger] a[j])
                ==> a[i] == a[j],
    ensures
        sort_by(a, k) == sort_by(b, k),
{
    law_sort_by(a, k);
    law_sort_by(b, k);
    let s = sort_by(a, k);
    a.to_multiset_ensures();
    s.to_multiset_ensures();
    assert forall|i: int, j: int|
        0 <= i < s.len() && 0 <= j < s.len() && k(#[trigger] s[i]) == k(
            #[trigger] s[j],
        ) implies s[i] == s[j] by {
        assert(s.contains(s[i]) && s.contains(s[j]));
        assert(s.to_multiset().count(s[i]) > 0);
        assert(s.to_multiset().count(s[j]) > 0);
        assert(a.contains(s[i]) && a.contains(s[j]));
        let p = choose|p: int| 0 <= p < a.len() && a[p] == s[i];
        let q = choose|q: int| 0 <= q < a.len() && a[q] == s[j];
        assert(k(a[p]) == k(a[q]));
    }
    lemma_sorted_unique(s, sort_by(b, k), k);
}

/// Where an item goes.
pub proof fn lemma_insert_at<A>(s: Seq<A>, x: A, k: spec_fn(A) -> Key, p: int)
    requires
        0 <= p <= s.len(),
        forall|q: int| p <= q < s.len() ==> key_lt(k(x), k(#[trigger] s[q])),
        p > 0 ==> !key_lt(k(x), k(s[p - 1])),
    ensures
        insert_by(s, x, k) == s.insert(p, x),
    decreases s.len(),
{
    if p == s.len() {
        assert(s.insert(p, x) =~= s.push(x));
    } else {
        let t = s.drop_last();
        assert(key_lt(k(x), k(s[s.len() - 1])));
        assert forall|q: int| p <= q < t.len() implies key_lt(k(x), k(#[trigger] t[q])) by {
            assert(t[q] == s[q]);
        }
        lemma_insert_at(t, x, k, p);
        assert(t.insert(p, x).push(s.last()) =~= s.insert(p, x));
    }
}

/// Does `a` come before `b`?
pub fn key_before(a: &Vec<Vec<u8>>, b: &Vec<Vec<u8>>) -> (r: bool)
    ensures
        r == key_lt(a.deep_view(), b.deep_view()),
{
    let ghost x = a.deep_view();
    let ghost y = b.deep_view();
    let mut i: usize = 0;
    assert(x.skip(0) =~= x);
    assert(y.skip(0) =~= y);
    while i < a.len() && i < b.len()
        invariant
            i <= a@.len(),
            i <= b@.len(),
            x == a.deep_view(),
            y == b.deep_view(),
            key_lt(x.skip(i as int), y.skip(i as int)) == key_lt(x, y),
        decreases a.len() - i,
    {
        assert(x.skip(i as int)[0] == a@[i as int]@);
        assert(y.skip(i as int)[0] == b@[i as int]@);
        assert(x.skip(i as int).drop_first() =~= x.skip(i + 1));
        assert(y.skip(i as int).drop_first() =~= y.skip(i + 1));
        match bytes_order(a[i].as_slice(), b[i].as_slice()) {
            Order::Equal => {},
            Order::Before => {
                return true;
            },
            Order::After => {
                proof {
                    crate::octets::lemma_bytes_lt_total(a@[i as int]@, b@[i as int]@);
                }
                return false;
            },
        }
        i = i + 1;
    }
    b.len() > i
}

/// Is every item before the ones behind it?
pub open spec fn increasing<A>(s: Seq<A>, lt: spec_fn(A, A) -> bool) -> bool {
    forall|i: int, j: int| 0 <= i < j < s.len() ==> lt(#[trigger] s[i], #[trigger] s[j])
}

/// Is `lt` the order of a line: no item before itself, of two items one first?
pub open spec fn strict_order<A>(lt: spec_fn(A, A) -> bool) -> bool {
    &&& forall|x: A| !#[trigger] lt(x, x)
    &&& forall|x: A, y: A| #[trigger] lt(x, y) ==> !lt(y, x)
    &&& forall|x: A, y: A| x == y || #[trigger] lt(x, y) || lt(y, x)
    &&& forall|x: A, y: A, z: A| #[trigger] lt(x, y) && #[trigger] lt(y, z) ==> lt(x, z)
}

/// An increasing list is fixed by its set.
pub proof fn lemma_increasing_unique<A>(a: Seq<A>, b: Seq<A>, lt: spec_fn(A, A) -> bool)
    requires
        strict_order(lt),
        increasing(a, lt),
        increasing(b, lt),
        a.to_set() == b.to_set(),
    ensures
        a == b,
    decreases a.len(),
{
    if a.len() == 0 {
        if b.len() > 0 {
            assert(b.to_set().contains(b[0]));
            assert(a.to_set().contains(b[0]));
        }
        assert(a =~= b);
    } else {
        assert(a.to_set().contains(a[0]));
        assert(b.contains(a[0]));
        assert(b.to_set().contains(b[0]));
        assert(a.contains(b[0]));
        let i = choose|i: int| 0 <= i < b.len() && b[i] == a[0];
        let j = choose|j: int| 0 <= j < a.len() && a[j] == b[0];
        if i != 0 {
            assert(lt(b[0], b[i]));
            if j != 0 {
                assert(lt(a[0], a[j]));
            }
            assert(!lt(a[0], b[0]));
            assert(false);
        }
        assert(a[0] == b[0]);
        let x = a.drop_first();
        let y = b.drop_first();
        assert forall|r: A| x.to_set().contains(r) <==> y.to_set().contains(r) by {
            if x.contains(r) {
                let k = choose|k: int| 0 <= k < x.len() && x[k] == r;
                assert(a[k + 1] == r);
                assert(lt(a[0], a[k + 1]));
                assert(a.to_set().contains(r));
                assert(b.contains(r));
                let m = choose|m: int| 0 <= m < b.len() && b[m] == r;
                assert(!lt(a[0], a[0]));
                assert(y[m - 1] == r);
            }
            if y.contains(r) {
                let k = choose|k: int| 0 <= k < y.len() && y[k] == r;
                assert(b[k + 1] == r);
                assert(lt(b[0], b[k + 1]));
                assert(b.to_set().contains(r));
                assert(a.contains(r));
                let m = choose|m: int| 0 <= m < a.len() && a[m] == r;
                assert(!lt(b[0], b[0]));
                assert(x[m - 1] == r);
            }
        }
        assert(x.to_set() =~= y.to_set());
        lemma_increasing_unique(x, y, lt);
        assert(a =~= seq![a[0]] + x);
        assert(b =~= seq![b[0]] + y);
    }
}

/// An item between smaller and larger ones keeps a list increasing.
pub proof fn lemma_increasing_insert<A>(s: Seq<A>, i: int, t: A, lt: spec_fn(A, A) -> bool)
    requires
        increasing(s, lt),
        0 <= i <= s.len(),
        forall|j: int| 0 <= j < i ==> lt(#[trigger] s[j], t),
        forall|j: int| i <= j < s.len() ==> lt(t, #[trigger] s[j]),
    ensures
        increasing(s.insert(i, t), lt),
        s.insert(i, t).to_set() == s.to_set().insert(t),
{
    let r = s.insert(i, t);
    assert forall|a: int, b: int| 0 <= a < b < r.len() implies lt(
        #[trigger] r[a],
        #[trigger] r[b],
    ) by {
        let x = if a < i {
            a
        } else {
            a - 1
        };
        let y = if b < i {
            b
        } else {
            b - 1
        };
        if a != i {
            assert(r[a] == s[x]);
        }
        if b != i {
            assert(r[b] == s[y]);
        }
    }
    assert forall|x: A| r.to_set().contains(x) <==> s.to_set().insert(t).contains(x) by {
        if r.contains(x) && x != t {
            let j = choose|j: int| 0 <= j < r.len() && r[j] == x;
            let y = if j < i {
                j
            } else {
                j - 1
            };
            assert(s[y] == x);
        }
        if s.contains(x) {
            let j = choose|j: int| 0 <= j < s.len() && s[j] == x;
            let y = if j < i {
                j
            } else {
                j + 1
            };
            assert(r[y] == x);
        }
        assert(r[i] == t);
    }
    assert(r.to_set() =~= s.to_set().insert(t));
}

/// How many items of an increasing list come before an item.
spec fn place<A>(s: Seq<A>, t: A, lt: spec_fn(A, A) -> bool) -> int
    decreases s.len(),
{
    if s.len() == 0 {
        0
    } else if lt(s.last(), t) {
        s.len() as int
    } else {
        place(s.drop_last(), t, lt)
    }
}

proof fn lemma_place<A>(s: Seq<A>, t: A, lt: spec_fn(A, A) -> bool)
    requires
        strict_order(lt),
        increasing(s, lt),
        !s.contains(t),
    ensures
        0 <= place(s, t, lt) <= s.len(),
        forall|j: int| 0 <= j < place(s, t, lt) ==> lt(#[trigger] s[j], t),
        forall|j: int| place(s, t, lt) <= j < s.len() ==> lt(t, #[trigger] s[j]),
    decreases s.len(),
{
    if s.len() > 0 {
        let d = s.drop_last();
        assert(s[s.len() - 1] == s.last());
        if lt(s.last(), t) {
            assert forall|j: int| 0 <= j < s.len() implies lt(#[trigger] s[j], t) by {
                if j < s.len() - 1 {
                    assert(lt(s[j], s[s.len() - 1]));
                }
            }
        } else {
            assert(lt(t, s.last()));
            assert forall|j: int| 0 <= j < d.len() implies d[j] != t by {
                assert(s[j] == d[j]);
            }
            lemma_place(d, t, lt);
            assert forall|j: int| place(s, t, lt) <= j < s.len() implies lt(t, #[trigger] s[j]) by {
                if j < s.len() - 1 {
                    assert(d[j] == s[j]);
                }
            }
            assert forall|j: int| 0 <= j < place(s, t, lt) implies lt(#[trigger] s[j], t) by {
                assert(d[j] == s[j]);
            }
        }
    }
}

/// Every finite set has an increasing list.
pub proof fn lemma_increasing_exists<A>(all: Set<A>, lt: spec_fn(A, A) -> bool) -> (s: Seq<A>)
    requires
        strict_order(lt),
        all.finite(),
    ensures
        increasing(s, lt),
        s.to_set() == all,
    decreases all.len(),
{
    if all.len() == 0 {
        let s = Seq::<A>::empty();
        assert(s.to_set() =~= all);
        s
    } else {
        let x = all.choose();
        let s = lemma_increasing_exists(all.remove(x), lt);
        if s.contains(x) {
            assert(s.to_set().contains(x));
        }
        lemma_place(s, x, lt);
        lemma_increasing_insert(s, place(s, x, lt), x, lt);
        let t = s.insert(place(s, x, lt), x);
        assert(t.to_set() =~= all);
        t
    }
}

} // verus!
