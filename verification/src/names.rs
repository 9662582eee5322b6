//! Sets of names and their order.

use vstd::prelude::*;

use crate::assoc::AssocMap;
use crate::text::{has_text, insert_sorted, Dup};

verus! {

/// The names of a set in increasing order.
pub open spec fn ordered(names: Set<Seq<char>>) -> Seq<Seq<char>> {
    choose|s: Seq<Seq<char>>| crate::text::texts_sorted(s) && s.to_set() == names
}

/// A list of increasing names is fixed by its set.
pub proof fn lemma_texts_unique(a: Seq<Seq<char>>, b: Seq<Seq<char>>)
    requires
        crate::text::texts_sorted(a),
        crate::text::texts_sorted(b),
        a.to_set() == b.to_set(),
    ensures
        a == b,
    decreases a.len(),
{
    if a.len() == 0 {
        if b.len() > 0 {
            assert(b.to_set().contains(b[0]));
            assert(a.to_set().contains(b[0]));
        }
        assert(a =~= b);
    } else {
        assert(a.to_set().contains(a[0]));
        assert(b.contains(a[0]));
        assert(b.to_set().contains(b[0]));
        assert(a.contains(b[0]));
        let i = choose|i: int| 0 <= i < b.len() && b[i] == a[0];
        let j = choose|j: int| 0 <= j < a.len() && a[j] == b[0];
        crate::text::lemma_text_lt_total(a[0], b[0]);
        assert(a[0] == b[0]);
        let x = a.drop_first();
        let y = b.drop_first();
        assert forall|r: Seq<char>| x.to_set().contains(r) <==> y.to_set().contains(r) by {
            crate::text::lemma_text_lt_total(a[0], a[0]);
            if x.contains(r) {
                let k = choose|k: int| 0 <= k < x.len() && x[k] == r;
                assert(a[k + 1] == r);
                assert(crate::text::text_lt(a[0], a[k + 1]));
                assert(a.to_set().contains(r));
                assert(b.contains(r));
                let m = choose|m: int| 0 <= m < b.len() && b[m] == r;
                assert(y[m - 1] == r);
            }
            if y.contains(r) {
                let k = choose|k: int| 0 <= k < y.len() && y[k] == r;
                assert(b[k + 1] == r);
                assert(crate::text::text_lt(b[0], b[k + 1]));
                assert(b.to_set().contains(r));
                assert(a.contains(r));
                let m = choose|m: int| 0 <= m < a.len() && a[m] == r;
                assert(x[m - 1] == r);
            }
        }
        assert(x.to_set() =~= y.to_set());
        assert(crate::text::texts_sorted(x));
        assert(crate::text::texts_sorted(y));
        lemma_texts_unique(x, y);
        assert(a =~= seq![a[0]] + x);
        assert(b =~= seq![b[0]] + y);
    }
}

/// An increasing list is the order of its set.
pub proof fn lemma_ordered(s: Seq<Seq<char>>)
    requires
        crate::text::texts_sorted(s),
    ensures
        ordered(s.to_set()) == s,
{
    lemma_texts_unique(ordered(s.to_set()), s);
}

/// Every finite set of names has an order: increasing, with the names of the set
/// and no others.
pub proof fn law_ordered(names: Set<Seq<char>>)
    requires
        names.finite(),
    ensures
        crate::text::texts_sorted(ordered(names)),
        ordered(names).to_set() == names,
{
    let lt = |a: Seq<char>, b: Seq<char>| crate::text::text_lt(a, b);
    assert forall|x: Seq<char>, y: Seq<char>| #[trigger] lt(x, y) implies !lt(y, x) by {
        crate::text::lemma_text_lt_total(x, y);
    }
    assert forall|x: Seq<char>| !#[trigger] lt(x, x) by {
        crate::text::lemma_text_lt_total(x, x);
    }
    assert forall|x: Seq<char>, y: Seq<char>| x == y || #[trigger] lt(x, y) || lt(y, x) by {
        crate::text::lemma_text_lt_total(x, y);
    }
    assert forall|x: Seq<char>, y: Seq<char>, z: Seq<char>| #[trigger]
        lt(x, y) && #[trigger] lt(y, z) implies lt(x, z) by {
        crate::octets::lemma_bytes_lt_trans(
            crate::text::utf8(x),
            crate::text::utf8(y),
            crate::text::utf8(z),
        );
    }
    let s = crate::sorting::lemma_increasing_exists(names, lt);
    assert forall|i: int, j: int| 0 <= i < j < s.len() implies crate::text::text_lt(
        #[trigger] s[i],
        #[trigger] s[j],
    ) by {
        assert(lt(s[i], s[j]));
    }
    assert(crate::text::texts_sorted(s));
}

/// A set of names.
#[derive(Debug, Clone)]
pub struct NameSet {
    pub names: Vec<String>,
}

impl DeepView for NameSet {
    type V = Set<Seq<char>>;

    open spec fn deep_view(&self) -> Set<Seq<char>> {
        self.names.deep_view().to_set()
    }
}

impl Dup for NameSet {
    fn dup(&self) -> (r: Self) {
        NameSet { names: self.names.dup() }
    }
}

impl NameSet {
    /// The empty set.
    pub fn new() -> (r: Self)
        ensures
            r.deep_view() == Set::<Seq<char>>::empty(),
    {
        let r = NameSet { names: Vec::new() };
        assert(r.names.deep_view() =~= seq![]);
        assert(r.deep_view() =~= Set::empty());
        r
    }

    /// Is the name in the set?
    pub fn contains(&self, name: &str) -> (r: bool)
        ensures
            r == self.deep_view().contains(name@),
    {
        has_text(&self.names, name)
    }

    /// Has the set no names?
    pub fn is_empty(&self) -> (r: bool)
        ensures
            r == (self.deep_view() == Set::<Seq<char>>::empty()),
    {
        let r = self.names.len() == 0;
        proof {
            let s = self.names.deep_view();
            if r {
                assert(s.to_set() =~= Set::empty());
            } else {
                assert(s.to_set().contains(s[0]));
            }
        }
        r
    }

    /// Add a name.
    pub fn insert(&mut self, name: &str)
        ensures
            final(self).deep_view() == old(self).deep_view().insert(name@),
    {
        let ghost s = self.names.deep_view();
        if !has_text(&self.names, name) {
            self.names.push(name.to_owned());
            proof {
                let t = self.names.deep_view();
                assert(t =~= s.push(name@));
                assert forall|x: Seq<char>| t.to_set().contains(x) <==> s.to_set().insert(
                    name@,
                ).contains(x) by {
                    if s.contains(x) {
                        let i = choose|i: int| 0 <= i < s.len() && s[i] == x;
                        assert(t[i] == x);
                    }
                    assert(t[s.len() as int] == name@);
                }
                assert(t.to_set() =~= s.to_set().insert(name@));
            }
        } else {
            assert(s.to_set() =~= s.to_set().insert(name@));
        }
    }

    /// Add all names of a list.
    pub fn insert_all(&mut self, names: &Vec<String>)
        ensures
            final(self).deep_view() == old(self).deep_view().union(names.deep_view().to_set()),
    {
        let ghost start = self.deep_view();
        let ghost n = names.deep_view();
        let mut i: usize = 0;
        assert(start.union(n.take(0).to_set()) =~= start);
        while i < names.len()
            invariant
                i <= names@.len(),
                n == names.deep_view(),
                self.deep_view() == start.union(n.take(i as int).to_set()),
            decreases names.len() - i,
        {
            self.insert(names[i].as_str());
            proof {
                let a = n.take(i as int);
                let b = n.take(i + 1);
                assert(b =~= a.push(names@[i as int]@));
                assert forall|x: Seq<char>| b.contains(x) <==> a.contains(x) || x
                    == names@[i as int]@ by {
                    if a.contains(x) {
                        let k = choose|k: int| 0 <= k < a.len() && a[k] == x;
                        assert(b[k] == x);
                    }
                    assert(b[i as int] == names@[i as int]@);
                }
                assert(self.deep_view() =~= start.union(b.to_set()));
            }
            i = i + 1;
        }
        assert(n.take(i as int) =~= n);
    }

    /// Take a name out.
    pub fn remove(&mut self, name: &str)
        ensures
            final(self).deep_view() == old(self).deep_view().remove(name@),
    {
        let ghost s = self.names.deep_view();
        let mut out: Vec<String> = Vec::new();
        let mut i: usize = 0;
        assert(out.deep_view() =~= seq![]);
        while i < self.names.len()
            invariant
                i <= self.names@.len(),
                s == self.names.deep_view(),
                forall|x: Seq<char>| #[trigger]
                    out.deep_view().contains(x) <==> s.take(i as int).contains(x) && x != name@,
            decreases self.names.len() - i,
        {
            let ghost before = out.deep_view();
            let ghost a = s.take(i as int);
            let ghost b = s.take(i + 1);
            let ghost n = self.names@[i as int]@;
            assert(b =~= a.push(n));
            if !crate::text::str_eq(self.names[i].as_str(), name) {
                out.push(self.names[i].clone());
                assert(out.deep_view() =~= before.push(n));
            }
            assert forall|x: Seq<char>| #[trigger] out.deep_view().contains(x) <==> b.contains(x)
                && x != name@ by {
                let after = out.deep_view();
                if a.contains(x) {
                    let k = choose|k: int| 0 <= k < a.len() && a[k] == x;
                    assert(b[k] == x);
                }
                assert(b[i as int] == n);
                if before.contains(x) {
                    let k = choose|k: int| 0 <= k < before.len() && before[k] == x;
                    assert(after[k] == x);
                }
                if x == n && n != name@ {
                    assert(after[before.len() as int] == n);
                }
            }
            i = i + 1;
        }
        proof {
            assert(s.take(i as int) =~= s);
            assert(out.deep_view().to_set() =~= s.to_set().remove(name@));
        }
        self.names = out;
    }

    /// The names in increasing order.
    pub fn sorted(&self) -> (r: Vec<String>)
        ensures
            r.deep_view() == ordered(self.deep_view()),
            r.deep_view().to_set() == self.deep_view(),
            crate::text::texts_sorted(r.deep_view()),
    {
        sorted_names(&self.names)
    }
}

/// The names of a list in increasing order, each once.
pub fn sorted_names(names: &Vec<String>) -> (r: Vec<String>)
    ensures
        r.deep_view() == ordered(names.deep_view().to_set()),
        r.deep_view().to_set() == names.deep_view().to_set(),
        crate::text::texts_sorted(r.deep_view()),
{
    let ghost n = names.deep_view();
    let mut out: Vec<String> = Vec::new();
    let mut i: usize = 0;
    proof {
        assert(out.deep_view() =~= seq![]);
        assert(n.take(0).to_set() =~= out.deep_view().to_set());
    }
    while i < names.len()
        invariant
            i <= names@.len(),
            n == names.deep_view(),
            crate::text::texts_sorted(out.deep_view()),
            out.deep_view().to_set() == n.take(i as int).to_set(),
        decreases names.len() - i,
    {
        insert_sorted(&mut out, names[i].clone());
        proof {
            lemma_take_set(n, i as int);
        }
        i = i + 1;
    }
    proof {
        assert(n.take(i as int) =~= n);
        lemma_ordered(out.deep_view());
    }
    out
}

/// One more item of a list is one more item of its set.
pub proof fn lemma_take_set<A>(s: Seq<A>, i: int)
    requires
        0 <= i < s.len(),
    ensures
        s.take(i + 1).to_set() == s.take(i).to_set().insert(s[i]),
{
    let a = s.take(i);
    let b = s.take(i + 1);
    assert(b =~= a.push(s[i]));
    assert forall|x: A| b.to_set().contains(x) <==> a.to_set().insert(s[i]).contains(x) by {
        if a.contains(x) {
            let k = choose|k: int| 0 <= k < a.len() && a[k] == x;
            assert(b[k] == x);
        }
        assert(b[i] == s[i]);
    }
    assert(b.to_set() =~= a.to_set().insert(s[i]));
}

/// The keys of a map in increasing order.
pub fn sorted_keys<T: DeepView>(m: &AssocMap<String, T>) -> (r: Vec<String>)
    ensures
        r.deep_view() == ordered(m.deep_view().dom()),
        r.deep_view().to_set() == m.deep_view().dom(),
        crate::text::texts_sorted(r.deep_view()),
{
    let mut out: Vec<String> = Vec::new();
    assert(out.deep_view() =~= seq![]);
    add_keys(&mut out, m);
    proof {
        assert(out.deep_view().to_set() =~= m.deep_view().dom());
        lemma_ordered(out.deep_view());
    }
    out
}

/// Add the keys of a map to an increasing list.
pub fn add_keys<T: DeepView>(out: &mut Vec<String>, m: &AssocMap<String, T>)
    requires
        crate::text::texts_sorted(old(out).deep_view()),
    ensures
        crate::text::texts_sorted(final(out).deep_view()),
        final(out).deep_view().to_set() == old(out).deep_view().to_set().union(
            m.deep_view().dom(),
        ),
{
    let ghost start = out.deep_view().to_set();
    let ghost e = m.entries.deep_view();
    let ghost k = e.map_values(|x: (Seq<char>, T::V)| x.0);
    let mut i: usize = 0;
    assert(start.union(k.take(0).to_set()) =~= start);
    while i < m.entries.len()
        invariant
            i <= m.entries@.len(),
            e == m.entries.deep_view(),
            k == e.map_values(|x: (Seq<char>, T::V)| x.0),
            crate::text::texts_sorted(out.deep_view()),
            out.deep_view().to_set() == start.union(k.take(i as int).to_set()),
        decreases m.entries.len() - i,
    {
        insert_sorted(out, m.entries[i].0.clone());
        proof {
            lemma_take_set(k, i as int);
            assert(e[i as int] == m.entries@[i as int].deep_view());
            assert(out.deep_view().to_set() =~= start.union(k.take(i + 1).to_set()));
        }
        i = i + 1;
    }
    proof {
        assert(k.take(i as int) =~= k);
        assert forall|x: Seq<char>| k.to_set().contains(x) <==> m.deep_view().dom().contains(x) by {
            crate::assoc::lemma_assoc_dom(e, x);
            if k.contains(x) {
                let j = choose|j: int| 0 <= j < k.len() && k[j] == x;
                assert(e[j].0 == x);
            }
            if exists|j: int| 0 <= j < e.len() && (#[trigger] e[j]).0 == x {
                let j = choose|j: int| 0 <= j < e.len() && (#[trigger] e[j]).0 == x;
                assert(k[j] == x);
            }
        }
        assert(k.to_set() =~= m.deep_view().dom());
    }
}

} // verus!
