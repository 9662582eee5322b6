//! A map kept as a list of entries; the first entry of a key counts.

use vstd::prelude::*;

use crate::text::{Dup, Same};

verus! {

/// The map that a list of entries stands for.
pub open spec fn assoc<A, B>(s: Seq<(A, B)>) -> Map<A, B>
    decreases s.len(),
{
    if s.len() == 0 {
        Map::empty()
    } else {
        assoc(s.drop_first()).insert(s[0].0, s[0].1)
    }
}

/// The keys of the map are the keys of the entries.
pub proof fn lemma_assoc_dom<A, B>(s: Seq<(A, B)>, k: A)
    ensures
        assoc(s).dom().contains(k) <==> exists|i: int| 0 <= i < s.len() && (#[trigger] s[i]).0 == k,
        assoc(s).dom().finite(),
    decreases s.len(),
{
    if s.len() > 0 {
        let t = s.drop_first();
        lemma_assoc_dom(t, k);
        if assoc(s).dom().contains(k) && s[0].0 != k {
            let i = choose|i: int| 0 <= i < t.len() && (#[trigger] t[i]).0 == k;
            assert(s[i + 1].0 == k);
        }
        if exists|i: int| 0 <= i < s.len() && (#[trigger] s[i]).0 == k {
            let i = choose|i: int| 0 <= i < s.len() && (#[trigger] s[i]).0 == k;
            if i > 0 {
                assert(t[i - 1].0 == k);
            }
        }
    }
}

pub proof fn lemma_assoc_first<A, B>(s: Seq<(A, B)>, i: int)
    requires
        0 <= i < s.len(),
        forall|j: int| 0 <= j < i ==> (#[trigger] s[j]).0 != s[i].0,
    ensures
        assoc(s).dom().contains(s[i].0),
        assoc(s)[s[i].0] == s[i].1,
    decreases s.len(),
{
    if i > 0 {
        let t = s.drop_first();
        assert forall|j: int| 0 <= j < i - 1 implies (#[trigger] t[j]).0 != t[i - 1].0 by {
            assert(t[j] == s[j + 1]);
        }
        lemma_assoc_first(t, i - 1);
        assert(s[0].0 != s[i].0);
    }
}

pub proof fn lemma_assoc_push<A, B>(s: Seq<(A, B)>, e: (A, B))
    requires
        forall|j: int| 0 <= j < s.len() ==> (#[trigger] s[j]).0 != e.0,
    ensures
        assoc(s.push(e)) == assoc(s).insert(e.0, e.1),
    decreases s.len(),
{
    if s.len() == 0 {
        assert(s.push(e).drop_first() =~= s);
    } else {
        let t = s.drop_first();
        assert forall|j: int| 0 <= j < t.len() implies (#[trigger] t[j]).0 != e.0 by {
            assert(t[j] == s[j + 1]);
        }
        lemma_assoc_push(t, e);
        assert(s.push(e).drop_first() =~= t.push(e));
        assert(s[0].0 != e.0);
        assert(assoc(s.push(e)) =~= assoc(s).insert(e.0, e.1));
    }
}

pub proof fn lemma_assoc_update<A, B>(s: Seq<(A, B)>, i: int, e: (A, B))
    requires
        0 <= i < s.len(),
        s[i].0 == e.0,
        forall|j: int| 0 <= j < i ==> (#[trigger] s[j]).0 != e.0,
    ensures
        assoc(s.update(i, e)) == assoc(s).insert(e.0, e.1),
    decreases s.len(),
{
    if i == 0 {
        assert(s.update(i, e).drop_first() =~= s.drop_first());
        assert(assoc(s.update(i, e)) =~= assoc(s).insert(e.0, e.1));
    } else {
        let t = s.drop_first();
        assert forall|j: int| 0 <= j < i - 1 implies (#[trigger] t[j]).0 != e.0 by {
            assert(t[j] == s[j + 1]);
        }
        lemma_assoc_update(t, i - 1, e);
        assert(s.update(i, e).drop_first() =~= t.update(i - 1, e));
        assert(s[0].0 != e.0);
        assert(assoc(s.update(i, e)) =~= assoc(s).insert(e.0, e.1));
    }
}

proof fn lemma_assoc_remove<A, B>(s: Seq<(A, B)>, i: int, k: A)
    requires
        0 <= i < s.len(),
        s[i].0 != k,
    ensures
        assoc(s.remove(i)).dom().contains(k) == assoc(s).dom().contains(k),
        assoc(s).dom().contains(k) ==> assoc(s.remove(i))[k] == assoc(s)[k],
    decreases s.len(),
{
    if i == 0 {
        assert(s.remove(i) =~= s.drop_first());
    } else {
        lemma_assoc_remove(s.drop_first(), i - 1, k);
        assert(s.remove(i).drop_first() =~= s.drop_first().remove(i - 1));
    }
}

/// A map kept as a list of entries.
#[derive(Debug, Clone)]
pub struct AssocMap<K, T> {
    pub entries: Vec<(K, T)>,
}

impl<K: DeepView, T: DeepView> DeepView for AssocMap<K, T> {
    type V = Map<K::V, T::V>;

    open spec fn deep_view(&self) -> Map<K::V, T::V> {
        assoc(self.entries.deep_view())
    }
}

impl<K: DeepView, T: DeepView> AssocMap<K, T> {
    /// The empty map.
    pub fn new() -> (r: Self)
        ensures
            r.deep_view() == Map::<K::V, T::V>::empty(),
    {
        let r = AssocMap { entries: Vec::new() };
        assert(r.entries.deep_view() =~= Seq::<(K::V, T::V)>::empty());
        r
    }

    /// The keys are finitely many.
    pub proof fn lemma_finite(&self)
        ensures
            self.deep_view().dom().finite(),
    {
        if self.entries.deep_view().len() > 0 {
            lemma_assoc_dom(self.entries.deep_view(), self.entries.deep_view()[0].0);
        }
    }
}

impl<K: Same, T: DeepView> AssocMap<K, T> {
    /// The first entry of a key.
    pub fn position(&self, key: &K) -> (r: Option<usize>)
        ensures
            r is Some <==> self.deep_view().dom().contains(key.deep_view()),
            r matches Some(i) ==> {
                &&& i < self.entries@.len()
                &&& self.entries@[i as int].0.deep_view() == key.deep_view()
                &&& self.entries@[i as int].1.deep_view() == self.deep_view()[key.deep_view()]
                &&& forall|j: int|
                    0 <= j < i ==> (#[trigger] self.entries.deep_view()[j]).0 != key.deep_view()
            },
            r is None ==> forall|j: int|
                0 <= j < self.entries@.len() ==> (#[trigger] self.entries.deep_view()[j]).0
                    != key.deep_view(),
    {
        let ghost s = self.entries.deep_view();
        let mut i: usize = 0;
        while i < self.entries.len()
            invariant
                i <= self.entries.len(),
                s == self.entries.deep_view(),
                forall|j: int| 0 <= j < i ==> (#[trigger] s[j]).0 != key.deep_view(),
            decreases self.entries.len() - i,
        {
            assert(s[i as int] == self.entries@[i as int].deep_view());
            if self.entries[i].0.same(key) {
                proof {
                    lemma_assoc_first(s, i as int);
                }
                return Some(i);
            }
            i = i + 1;
        }
        proof {
            lemma_assoc_dom(s, key.deep_view());
        }
        None
    }

    /// The value of a key.
    pub fn get(&self, key: &K) -> (r: Option<&T>)
        ensures
            r is Some <==> self.deep_view().dom().contains(key.deep_view()),
            r matches Some(v) ==> v.deep_view() == self.deep_view()[key.deep_view()],
    {
        match self.position(key) {
            Some(i) => Some(&self.entries[i].1),
            None => None,
        }
    }

    /// Is there a value for `key`?
    pub fn contains(&self, key: &K) -> (r: bool)
        ensures
            r == self.deep_view().dom().contains(key.deep_view()),
    {
        self.position(key).is_some()
    }

    /// Set the value of a key.
    pub fn insert(&mut self, key: K, value: T)
        ensures
            final(self).deep_view() == old(self).deep_view().insert(
                key.deep_view(),
                value.deep_view(),
            ),
    {
        let ghost s = self.entries.deep_view();
        let ghost e = (key.deep_view(), value.deep_view());
        match self.position(&key) {
            Some(i) => {
                self.entries[i] = (key, value);
                proof {
                    assert(self.entries.deep_view() =~= s.update(i as int, e));
                    lemma_assoc_update(s, i as int, e);
                }
            },
            None => {
                self.entries.push((key, value));
                proof {
                    assert(self.entries.deep_view() =~= s.push(e));
                    lemma_assoc_push(s, e);
                }
            },
        }
    }

    /// Remove a key; was it there?
    pub fn remove(&mut self, key: &K) -> (r: bool)
        ensures
            r == old(self).deep_view().dom().contains(key.deep_view()),
            final(self).deep_view() == old(self).deep_view().remove(key.deep_view()),
    {
        let found = self.contains(key);
        let ghost k = key.deep_view();
        let mut at = self.position(key);
        while at.is_some()
            invariant
                k == key.deep_view(),
                forall|x: K::V|
                    x != k ==> #[trigger] self.deep_view().dom().contains(x) == old(
                        self,
                    ).deep_view().dom().contains(x),
                forall|x: K::V|
                    x != k && #[trigger] old(self).deep_view().dom().contains(x)
                        ==> self.deep_view()[x] == old(self).deep_view()[x],
                at is Some <==> self.deep_view().dom().contains(k),
                at matches Some(i) ==> i < self.entries@.len()
                    && self.entries@[i as int].0.deep_view() == k,
            decreases self.entries@.len(),
        {
            let ghost s = self.entries.deep_view();
            let i: usize = at.unwrap();
            self.entries.remove(i);
            proof {
                assert(self.entries.deep_view() =~= s.remove(i as int));
                assert(s[i as int].0 == k);
                assert forall|x: K::V| x != k implies #[trigger] self.deep_view().dom().contains(x)
                    == assoc(s).dom().contains(x) && (assoc(s).dom().contains(x)
                    ==> self.deep_view()[x] == assoc(s)[x]) by {
                    lemma_assoc_remove(s, i as int, x);
                }
                assert forall|x: K::V|
                    x != k && #[trigger] old(self).deep_view().dom().contains(
                        x,
                    ) implies self.deep_view()[x] == old(self).deep_view()[x] by {
                    lemma_assoc_remove(s, i as int, x);
                }
            }
            at = self.position(key);
        }
        assert(self.deep_view() =~= old(self).deep_view().remove(k));
        found
    }
}

impl<K: Same + Dup, T: DeepView> AssocMap<K, T> {
    /// The keys, each once.
    pub fn keys(&self) -> (r: Vec<K>)
        ensures
            r.deep_view().no_duplicates(),
            r.deep_view().to_set() == self.deep_view().dom(),
    {
        let ghost s = self.entries.deep_view();
        let mut out: Vec<K> = Vec::new();
        let mut i: usize = 0;
        while i < self.entries.len()
            invariant
                i <= self.entries@.len(),
                s == self.entries.deep_view(),
                out.deep_view().no_duplicates(),
                forall|x: K::V| #[trigger]
                    out.deep_view().contains(x) <==> exists|j: int|
                        0 <= j < i && (#[trigger] s[j]).0 == x,
            decreases self.entries.len() - i,
        {
            let ghost before = out.deep_view();
            let ghost k = self.entries@[i as int].0.deep_view();
            assert(s[i as int].0 == k);
            let mut seen = false;
            let mut q: usize = 0;
            while q < out.len()
                invariant
                    q <= out@.len(),
                    i < self.entries@.len(),
                    before == out.deep_view(),
                    k == self.entries@[i as int].0.deep_view(),
                    seen == exists|j: int| 0 <= j < q && #[trigger] before[j] == k,
                decreases out.len() - q,
            {
                assert(before[q as int] == out@[q as int].deep_view());
                if out[q].same(&self.entries[i].0) {
                    seen = true;
                }
                q = q + 1;
            }
            if !seen {
                out.push(self.entries[i].0.dup());
                assert(out.deep_view() =~= before.push(k));
            }
            proof {
                let after = out.deep_view();
                assert forall|x: K::V| #[trigger] after.contains(x) <==> exists|j: int|
                    0 <= j < i + 1 && (#[trigger] s[j]).0 == x by {
                    if after.contains(x) {
                        let m = choose|m: int| 0 <= m < after.len() && after[m] == x;
                        if m < before.len() {
                            assert(before[m] == x);
                            assert(before.contains(x));
                        } else {
                            assert(s[i as int].0 == x);
                        }
                    }
                    if exists|j: int| 0 <= j < i + 1 && (#[trigger] s[j]).0 == x {
                        let j = choose|j: int| 0 <= j < i + 1 && (#[trigger] s[j]).0 == x;
                        if j < i {
                            assert(before.contains(x));
                            let m = choose|m: int| 0 <= m < before.len() && before[m] == x;
                            assert(after[m] == x);
                        } else if seen {
                            let m = choose|m: int| 0 <= m < before.len() && before[m] == k;
                            assert(after[m] == x);
                        } else {
                            assert(after[before.len() as int] == x);
                        }
                    }
                }
            }
            i = i + 1;
        }
        proof {
            assert forall|x: K::V| out.deep_view().to_set().contains(x)
                <==> self.deep_view().dom().contains(x) by {
                lemma_assoc_dom(s, x);
            }
            assert(out.deep_view().to_set() =~= self.deep_view().dom());
        }
        out
    }
}

impl<K: Dup, T: Dup> Dup for AssocMap<K, T> {
    fn dup(&self) -> (r: Self) {
        AssocMap { entries: self.entries.dup() }
    }
}

impl<A: Dup, B: Dup> Dup for (A, B) {
    fn dup(&self) -> (r: (A, B)) {
        (self.0.dup(), self.1.dup())
    }
}

impl<A: Same, B: Same> Same for (A, B) {
    fn same(&self, other: &(A, B)) -> (r: bool) {
        self.0.same(&other.0) && self.1.same(&other.1)
    }
}

/// A set kept as a list without repetitions.
#[derive(Debug, Clone)]
pub struct AssocSet<T> {
    pub items: Vec<T>,
}

impl<T: DeepView> DeepView for AssocSet<T> {
    type V = Set<T::V>;

    open spec fn deep_view(&self) -> Set<T::V> {
        self.items.deep_view().to_set()
    }
}

impl<T: Same> AssocSet<T> {
    /// Is every item listed once?
    pub open spec fn wf(&self) -> bool {
        self.items.deep_view().no_duplicates()
    }

    /// The empty set.
    pub fn new() -> (r: Self)
        ensures
            r.wf(),
            r.deep_view() == Set::<T::V>::empty(),
    {
        let r = AssocSet { items: Vec::new() };
        assert(r.items.deep_view() =~= Seq::<T::V>::empty());
        assert(r.deep_view() =~= Set::<T::V>::empty());
        r
    }

    /// Is `x` in the set?
    pub fn contains(&self, x: &T) -> (r: bool)
        ensures
            r == self.deep_view().contains(x.deep_view()),
    {
        let ghost s = self.items.deep_view();
        let mut i: usize = 0;
        while i < self.items.len()
            invariant
                i <= self.items@.len(),
                s == self.items.deep_view(),
                forall|j: int| 0 <= j < i ==> #[trigger] s[j] != x.deep_view(),
            decreases self.items.len() - i,
        {
            assert(s[i as int] == self.items@[i as int].deep_view());
            if self.items[i].same(x) {
                assert(s.contains(x.deep_view()));
                return true;
            }
            i = i + 1;
        }
        false
    }

    /// Add `x`; was it missing?
    pub fn insert(&mut self, x: T) -> (r: bool)
        requires
            old(self).wf(),
        ensures
            final(self).wf(),
            final(self).deep_view() == old(self).deep_view().insert(x.deep_view()),
            r == !old(self).deep_view().contains(x.deep_view()),
    {
        let ghost s = self.items.deep_view();
        let ghost v = x.deep_view();
        if self.contains(&x) {
            assert(s.to_set().insert(v) =~= s.to_set());
            return false;
        }
        self.items.push(x);
        proof {
            let t = self.items.deep_view();
            assert(t =~= s.push(v));
            assert forall|y: T::V| t.contains(y) <==> s.contains(y) || y == v by {
                if s.contains(y) {
                    let k = choose|k: int| 0 <= k < s.len() && s[k] == y;
                    assert(t[k] == y);
                }
                assert(t[s.len() as int] == v);
            }
            assert(t.to_set() =~= s.to_set().insert(v));
            assert(!s.contains(v));
        }
        true
    }

    /// The number of items.
    pub fn len(&self) -> (r: usize)
        requires
            self.wf(),
        ensures
            r == self.deep_view().len(),
    {
        proof {
            self.items.deep_view().unique_seq_to_set();
            assert(self.items.deep_view().len() == self.items@.len());
        }
        self.items.len()
    }
}

impl<K: Same + Dup, T: DeepView> AssocMap<K, T> {
    /// The number of keys.
    pub fn len(&self) -> (r: usize)
        ensures
            r == self.deep_view().dom().len(),
    {
        let keys = self.keys();
        proof {
            keys.deep_view().unique_seq_to_set();
            assert(keys.deep_view().len() == keys@.len());
        }
        keys.len()
    }

    /// Keep the keys of a set only.
    pub fn keep(&mut self, keys: &AssocSet<K>)
        ensures
            final(self).deep_view() == old(self).deep_view().restrict(keys.deep_view()),
    {
        let ghost m = self.deep_view();
        let ghost k = keys.deep_view();
        let list = self.keys();
        let ghost l = list.deep_view();
        let mut i: usize = 0;
        while i < list.len()
            invariant
                i <= list@.len(),
                l == list.deep_view(),
                k == keys.deep_view(),
                forall|x: K::V| #[trigger]
                    self.deep_view().dom().contains(x) ==> m.dom().contains(x)
                        && self.deep_view()[x] == m[x],
                forall|x: K::V| #[trigger]
                    m.dom().contains(x) && k.contains(x) ==> self.deep_view().dom().contains(x),
                forall|j: int|
                    0 <= j < i && self.deep_view().dom().contains(#[trigger] l[j]) ==> k.contains(
                        l[j],
                    ),
            decreases list.len() - i,
        {
            assert(l[i as int] == list@[i as int].deep_view());
            if !keys.contains(&list[i]) {
                self.remove(&list[i]);
            }
            i = i + 1;
        }
        proof {
            assert forall|x: K::V| #[trigger] self.deep_view().dom().contains(x) implies k.contains(
                x,
            ) by {
                assert(l.to_set().contains(x));
                let j = choose|j: int| 0 <= j < l.len() && l[j] == x;
                assert(self.deep_view().dom().contains(l[j]));
            }
            assert(self.deep_view() =~= m.restrict(k));
        }
    }
}

} // verus!
