//! What can be reached along links.

use vstd::prelude::*;

use crate::assoc::AssocSet;
use crate::text::{Dup, Same};

verus! {

/// Where the links of an item lead.
pub open spec fn targets<A>(links: Map<A, Seq<A>>, x: A) -> Seq<A> {
    if links.dom().contains(x) {
        links[x]
    } else {
        seq![]
    }
}

/// Is every item of `p` but the first a target of the one before it?
pub open spec fn is_path<A>(links: Map<A, Seq<A>>, p: Seq<A>) -> bool {
    &&& p.len() > 0
    &&& forall|i: int|
        0 <= i < p.len() - 1 ==> targets(links, #[trigger] p[i]).contains(p[i + 1])
}

/// Does a path lead from a root to `x`?
pub open spec fn reaches<A>(links: Map<A, Seq<A>>, roots: Set<A>, x: A) -> bool {
    exists|p: Seq<A>| #[trigger] is_path(links, p) && roots.contains(p[0]) && p.last() == x
}

/// A root is reached.
pub proof fn lemma_root_reached<A>(links: Map<A, Seq<A>>, roots: Set<A>, x: A)
    requires
        roots.contains(x),
    ensures
        reaches(links, roots, x),
{
    let p = seq![x];
    assert(is_path(links, p));
}

/// The targets of what is reached are reached.
pub proof fn lemma_target_reached<A>(links: Map<A, Seq<A>>, roots: Set<A>, x: A, y: A)
    requires
        reaches(links, roots, x),
        targets(links, x).contains(y),
    ensures
        reaches(links, roots, y),
{
    let p = choose|p: Seq<A>| #[trigger]
        is_path(links, p) && roots.contains(p[0]) && p.last() == x;
    let q = p.push(y);
    assert forall|i: int| 0 <= i < q.len() - 1 implies targets(links, #[trigger] q[i]).contains(
        q[i + 1],
    ) by {
        assert(q[i] == p[i]);
        if i < p.len() - 1 {
            assert(q[i + 1] == p[i + 1]);
        }
    }
    assert(is_path(links, q));
    assert(q[0] == p[0]);
}

/// What holds the roots and the targets of its items holds all that is reached.
pub proof fn lemma_reached_within<A>(links: Map<A, Seq<A>>, roots: Set<A>, all: Set<A>, x: A)
    requires
        roots.subset_of(all),
        forall|a: A, b: A|
            all.contains(a) && #[trigger] targets(links, a).contains(b) ==> all.contains(b),
        reaches(links, roots, x),
    ensures
        all.contains(x),
{
    let p = choose|p: Seq<A>| #[trigger]
        is_path(links, p) && roots.contains(p[0]) && p.last() == x;
    lemma_path_within(links, p, all, p.len() - 1);
}

proof fn lemma_path_within<A>(links: Map<A, Seq<A>>, p: Seq<A>, all: Set<A>, i: int)
    requires
        is_path(links, p),
        0 <= i < p.len(),
        all.contains(p[0]),
        forall|a: A, b: A|
            all.contains(a) && #[trigger] targets(links, a).contains(b) ==> all.contains(b),
    ensures
        all.contains(p[i]),
    decreases i,
{
    if i > 0 {
        lemma_path_within(links, p, all, i - 1);
        assert(targets(links, p[i - 1]).contains(p[i]));
    }
}

/// What is reached is reached along other links that are the same where it goes.
pub proof fn lemma_reached_carries<A>(
    links: Map<A, Seq<A>>,
    other: Map<A, Seq<A>>,
    roots: Set<A>,
    x: A,
)
    requires
        forall|a: A| reaches(links, roots, a) ==> #[trigger] targets(other, a) == targets(links, a),
        reaches(links, roots, x),
    ensures
        reaches(other, roots, x),
{
    let p = choose|p: Seq<A>| #[trigger]
        is_path(links, p) && roots.contains(p[0]) && p.last() == x;
    assert forall|i: int| 0 <= i < p.len() - 1 implies targets(other, #[trigger] p[i]).contains(
        p[i + 1],
    ) by {
        let q = p.take(i + 1);
        assert forall|k: int| 0 <= k < q.len() - 1 implies targets(
            links,
            #[trigger] q[k],
        ).contains(q[k + 1]) by {
            assert(q[k] == p[k]);
            assert(q[k + 1] == p[k + 1]);
        }
        assert(is_path(links, q));
        assert(q[0] == p[0] && q.last() == p[i]);
        assert(reaches(links, roots, p[i]));
    }
    assert(is_path(other, p));
}

/// Leaving out links of items that are not reached changes nothing.
pub proof fn lemma_reached_links_suffice<A>(
    links: Map<A, Seq<A>>,
    kept: Map<A, Seq<A>>,
    roots: Set<A>,
    x: A,
)
    requires
        forall|a: A| reaches(links, roots, a) ==> #[trigger] targets(kept, a) == targets(links, a),
        forall|a: A, b: A| #[trigger]
            targets(kept, a).contains(b) ==> targets(links, a).contains(b),
    ensures
        reaches(kept, roots, x) <==> reaches(links, roots, x),
{
    if reaches(kept, roots, x) {
        let p = choose|p: Seq<A>| #[trigger]
            is_path(kept, p) && roots.contains(p[0]) && p.last() == x;
        assert(is_path(links, p));
    }
    if reaches(links, roots, x) {
        lemma_reached_carries(links, kept, roots, x);
    }
}

/// Everything that a link leads to.
spec fn ends<A>(links: Map<A, Seq<A>>) -> Set<A> {
    Set::new(|y: A| exists|x: A| #[trigger] targets(links, x).contains(y))
}

proof fn lemma_ends_finite<A>(links: Map<A, Seq<A>>)
    requires
        links.dom().finite(),
    ensures
        ends(links).finite(),
    decreases links.dom().len(),
{
    broadcast use vstd::seq_lib::seq_to_set_is_finite;

    if links.dom().len() == 0 {
        assert forall|y: A| !ends(links).contains(y) by {}
        assert(ends(links) =~= Set::empty());
    } else {
        let k = links.dom().choose();
        let rest = links.remove(k);
        lemma_ends_finite(rest);
        let here = links[k].to_set();
        assert forall|y: A| ends(links).contains(y) implies ends(rest).union(here).contains(y) by {
            let x = choose|x: A| #[trigger] targets(links, x).contains(y);
            if x == k {
                assert(here.contains(y));
            } else {
                assert(targets(rest, x).contains(y));
            }
        }
        assert(ends(links).subset_of(ends(rest).union(here)));
        vstd::set_lib::lemma_set_subset_finite(ends(rest).union(here), ends(links));
    }
}

/// Things with links from item to item.
pub trait Links<T: DeepView>: Sized {
    /// The links of each item that has any.
    spec fn links(&self) -> Map<T::V, Seq<T::V>>;

    /// Finitely many items have links.
    proof fn links_finite(&self)
        ensures
            self.links().dom().finite(),
    ;

    /// The targets of an item.
    fn follow(&self, x: &T) -> (r: Vec<T>)
        ensures
            r.deep_view() == targets(self.links(), x.deep_view()),
    ;
}

/// All that is reached from the roots.
pub fn reachable<T: Same + Dup, G: Links<T>>(graph: &G, roots: Vec<T>) -> (r: AssocSet<T>)
    ensures
        r.wf(),
        forall|x: T::V| #[trigger]
            r.deep_view().contains(x) <==> reaches(
                graph.links(),
                roots.deep_view().to_set(),
                x,
            ),
{
    broadcast use vstd::seq_lib::seq_to_set_is_finite;

    let ghost links = graph.links();
    let ghost from = roots.deep_view().to_set();
    let ghost world = from.union(ends(links));
    proof {
        graph.links_finite();
        lemma_ends_finite(links);
        assert forall|x: T::V| #[trigger] roots.deep_view().contains(x) implies reaches(
            links,
            from,
            x,
        ) by {
            lemma_root_reached(links, from, x);
        }
    }
    let mut seen: AssocSet<T> = AssocSet::new();
    let mut stack = roots;
    while stack.len() > 0
        invariant
            links == graph.links(),
            world == from.union(ends(links)),
            world.finite(),
            seen.wf(),
            seen.deep_view().finite(),
            seen.deep_view().subset_of(world),
            forall|x: T::V| #[trigger] seen.deep_view().contains(x) ==> reaches(links, from, x),
            forall|x: T::V| #[trigger]
                stack.deep_view().contains(x) ==> reaches(links, from, x) && world.contains(x),
            forall|x: T::V| #[trigger]
                from.contains(x) ==> seen.deep_view().contains(x) || stack.deep_view().contains(x),
            forall|x: T::V, y: T::V|
                seen.deep_view().contains(x) && #[trigger] targets(links, x).contains(y)
                    ==> seen.deep_view().contains(y) || stack.deep_view().contains(y),
        decreases world.len() - seen.deep_view().len(), stack.len(),
    {
        let ghost before = stack.deep_view();
        let ghost done = seen.deep_view();
        let current = stack.pop().unwrap();
        let ghost c = current.deep_view();
        proof {
            assert(before.len() > 0);
            assert(c == before.last());
            assert(stack.deep_view() =~= before.drop_last());
            assert(before.contains(c));
            assert forall|x: T::V| before.contains(x) && x != c implies stack.deep_view().contains(
                x,
            ) by {
                let k = choose|k: int| 0 <= k < before.len() && before[k] == x;
                assert(stack.deep_view()[k] == x);
            }
            assert forall|x: T::V| #[trigger] stack.deep_view().contains(x) implies before.contains(
                x,
            ) by {
                let k = choose|k: int| 0 <= k < stack.deep_view().len() && stack.deep_view()[k]
                    == x;
                assert(before[k] == x);
            }
        }
        if seen.contains(&current) {
            continue;
        }
        let next = graph.follow(&current);
        seen.insert(current);
        let ghost top = stack.deep_view();
        let ghost n = next.deep_view();
        proof {
            vstd::set_lib::lemma_len_subset(seen.deep_view(), world);
            vstd::set_lib::lemma_len_subset(done, world);
        }
        let mut i: usize = 0;
        assert(n.take(0) =~= seq![]);
        while i < next.len()
            invariant
                i <= next@.len(),
                n == next.deep_view(),
                forall|x: T::V| #[trigger]
                    stack.deep_view().contains(x) ==> top.contains(x) || n.contains(x),
                forall|x: T::V| #[trigger] top.contains(x) ==> stack.deep_view().contains(x),
                forall|j: int|
                    0 <= j < i ==> seen.deep_view().contains(#[trigger] n[j])
                        || stack.deep_view().contains(n[j]),
            decreases next.len() - i,
        {
            let ghost b = stack.deep_view();
            let ghost v = n[i as int];
            assert(v == next@[i as int].deep_view());
            assert(n.contains(v));
            if !seen.contains(&next[i]) {
                stack.push(next[i].dup());
                proof {
                    let a = stack.deep_view();
                    assert(a =~= b.push(v));
                    assert forall|x: T::V| a.contains(x) <==> b.contains(x) || x == v by {
                        if b.contains(x) {
                            let k = choose|k: int| 0 <= k < b.len() && b[k] == x;
                            assert(a[k] == x);
                        }
                        assert(a[b.len() as int] == v);
                    }
                }
            }
            i = i + 1;
        }
        proof {
            assert forall|x: T::V| #[trigger] stack.deep_view().contains(x) implies reaches(
                links,
                from,
                x,
            ) && world.contains(x) by {
                if n.contains(x) {
                    assert(targets(links, c).contains(x));
                    lemma_target_reached(links, from, c, x);
                    assert(ends(links).contains(x));
                }
            }
            assert forall|x: T::V, y: T::V|
                seen.deep_view().contains(x) && #[trigger] targets(links, x).contains(
                    y,
                ) implies seen.deep_view().contains(y) || stack.deep_view().contains(y) by {
                if x == c {
                    let j = choose|j: int| 0 <= j < n.len() && n[j] == y;
                    assert(n[j] == y);
                } else {
                    assert(done.contains(x));
                }
            }
        }
    }
    proof {
        assert(stack.deep_view() =~= seq![]);
        assert forall|x: T::V| reaches(links, from, x) implies seen.deep_view().contains(x) by {
            lemma_reached_within(links, from, seen.deep_view(), x);
        }
    }
    seen
}

} // verus!
