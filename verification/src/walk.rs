//! Walks over histories, commit by commit.

use vstd::prelude::*;

use crate::commit::has_id;
use crate::model::CommitId;
use crate::table_merge::Fault;

verus! {

/// What reading each commit gives: its parents, or why it cannot be read.
pub type Readings = Map<Seq<u8>, Result<Seq<Seq<u8>>, Fault>>;

/// Walk on from the commits on the stack, the last one first, behind those that
/// were seen. A commit is seen once; the parents of a commit go on the stack. The
/// first commit that cannot be read ends the walk.
pub open spec fn walked(
    read: Readings,
    lost: spec_fn(Seq<u8>) -> Fault,
    stack: Seq<Seq<u8>>,
    seen: Seq<Seq<u8>>,
) -> Result<Seq<Seq<u8>>, Fault>
    decreases read.dom().difference(seen.to_set()).len(), stack.len(),
    when read.dom().finite()
    via walked_shrinks
{
    if stack.len() == 0 {
        Ok(seen)
    } else if seen.contains(stack.last()) {
        walked(read, lost, stack.drop_last(), seen)
    } else if !read.dom().contains(stack.last()) {
        Err(lost(stack.last()))
    } else {
        match read[stack.last()] {
            Err(e) => Err(e),
            Ok(parents) => walked(
                read,
                lost,
                stack.drop_last() + parents,
                seen.push(stack.last()),
            ),
        }
    }
}

/// A commit that is seen now was unseen before.
pub proof fn lemma_unseen_shrinks(read: Readings, seen: Seq<Seq<u8>>, x: Seq<u8>)
    requires
        read.dom().finite(),
        read.dom().contains(x),
        !seen.contains(x),
    ensures
        read.dom().difference(seen.push(x).to_set()).len() < read.dom().difference(
            seen.to_set(),
        ).len(),
{
    let a = read.dom().difference(seen.to_set());
    let b = read.dom().difference(seen.push(x).to_set());
    lemma_push_contains(seen, x);
    assert(a.contains(x));
    assert(b =~= a.remove(x));
}

#[via_fn]
proof fn walked_shrinks(
    read: Readings,
    lost: spec_fn(Seq<u8>) -> Fault,
    stack: Seq<Seq<u8>>,
    seen: Seq<Seq<u8>>,
) {
    if stack.len() > 0 {
        let x = stack.last();
        if !seen.contains(x) && read.dom().contains(x) {
            lemma_unseen_shrinks(read, seen, x);
        }
    }
}

proof fn lemma_push_contains<A>(s: Seq<A>, x: A)
    ensures
        forall|y: A| #[trigger] s.push(x).contains(y) <==> s.contains(y) || y == x,
{
    assert forall|y: A| #[trigger] s.push(x).contains(y) <==> s.contains(y) || y == x by {
        if s.contains(y) {
            let k = choose|k: int| 0 <= k < s.len() && s[k] == y;
            assert(s.push(x)[k] == y);
        }
        assert(s.push(x)[s.len() as int] == x);
    }
}

/// The commits from a tip on.
pub open spec fn history(read: Readings, lost: spec_fn(Seq<u8>) -> Fault, tip: Seq<u8>) -> Result<
    Seq<Seq<u8>>,
    Fault,
> {
    walked(read, lost, seq![tip], seq![])
}

/// The stack without the seen commits at its end.
pub open spec fn trimmed(stack: Seq<Seq<u8>>, seen: Seq<Seq<u8>>) -> Seq<Seq<u8>>
    decreases stack.len(),
{
    if stack.len() > 0 && seen.contains(stack.last()) {
        trimmed(stack.drop_last(), seen)
    } else {
        stack
    }
}

/// Seen commits at the end of the stack make no difference.
pub proof fn lemma_trimmed(
    read: Readings,
    lost: spec_fn(Seq<u8>) -> Fault,
    stack: Seq<Seq<u8>>,
    seen: Seq<Seq<u8>>,
)
    requires
        read.dom().finite(),
    ensures
        walked(read, lost, trimmed(stack, seen), seen) == walked(read, lost, stack, seen),
    decreases stack.len(),
{
    if stack.len() > 0 && seen.contains(stack.last()) {
        lemma_trimmed(read, lost, stack.drop_last(), seen);
    }
}

/// A walk under way: the commits to go to and those that were seen.
#[derive(Debug, Clone)]
pub struct Walk {
    pub stack: Vec<CommitId>,
    pub seen: Vec<CommitId>,
}

impl Walk {
    /// A walk from a tip.
    pub fn from_tip(tip: CommitId) -> (r: Self)
        ensures
            r.stack.deep_view() == seq![tip@],
            r.seen.deep_view() == Seq::<Seq<u8>>::empty(),
    {
        let mut stack: Vec<CommitId> = Vec::new();
        stack.push(tip);
        let r = Walk { stack, seen: Vec::new() };
        assert(r.stack.deep_view() =~= seq![tip@]);
        assert(r.seen.deep_view() =~= seq![]);
        r
    }

    /// The next commit to read, which then is seen; none where the walk is over.
    pub fn next(&mut self) -> (r: Option<CommitId>)
        ensures
            ({
                let left = trimmed(old(self).stack.deep_view(), old(self).seen.deep_view());
                match r {
                    None => left.len() == 0 && final(self).stack.deep_view() == left
                        && final(self).seen.deep_view() == old(self).seen.deep_view(),
                    Some(c) => left.len() > 0 && c@ == left.last()
                        && !old(self).seen.deep_view().contains(c@)
                        && final(self).stack.deep_view() == left.drop_last()
                        && final(self).seen.deep_view() == old(self).seen.deep_view().push(c@),
                }
            }),
    {
        let ghost seen = self.seen.deep_view();
        let ghost left = trimmed(self.stack.deep_view(), seen);
        while self.stack.len() > 0
            invariant
                self.seen.deep_view() == seen,
                seen == old(self).seen.deep_view(),
                left == trimmed(old(self).stack.deep_view(), seen),
                left == trimmed(self.stack.deep_view(), seen),
            decreases self.stack.len(),
        {
            let ghost before = self.stack.deep_view();
            let c = self.stack.pop().unwrap();
            assert(before.len() > 0 && c@ == before.last());
            assert(self.stack.deep_view() =~= before.drop_last());
            if !has_id(&self.seen, &c) {
                self.seen.push(c);
                assert(self.seen.deep_view() =~= seen.push(c@));
                return Some(c);
            }
        }
        assert(self.stack.deep_view() =~= seq![]);
        None
    }

    /// Go to the parents of the commit that was read.
    pub fn follow(&mut self, parents: &Vec<CommitId>)
        ensures
            final(self).stack.deep_view() == old(self).stack.deep_view() + parents.deep_view(),
            final(self).seen.deep_view() == old(self).seen.deep_view(),
    {
        let ghost start = self.stack.deep_view();
        let ghost p = parents.deep_view();
        let mut i: usize = 0;
        assert(start + p.take(0) =~= start);
        while i < parents.len()
            invariant
                i <= parents@.len(),
                p == parents.deep_view(),
                self.seen.deep_view() == old(self).seen.deep_view(),
                self.stack.deep_view() == start + p.take(i as int),
            decreases parents.len() - i,
        {
            let ghost before = self.stack.deep_view();
            self.stack.push(parents[i]);
            proof {
                assert(p[i as int] == parents@[i as int]@);
                assert(self.stack.deep_view() =~= before.push(p[i as int]));
                assert(self.stack.deep_view() =~= start + p.take(i + 1));
            }
            i = i + 1;
        }
        assert(p.take(i as int) =~= p);
    }
}

/// The parents of the commits that can be read.
pub open spec fn read_links(read: Readings) -> Map<Seq<u8>, Seq<Seq<u8>>> {
    Map::new(
        |x: Seq<u8>| read.dom().contains(x) && read[x] is Ok,
        |x: Seq<u8>| read[x]->Ok_0,
    )
}

/// Can a commit be read?
pub open spec fn readable(read: Readings, x: Seq<u8>) -> bool {
    read.dom().contains(x) && read[x] is Ok
}

/// Why a commit cannot be read.
pub open spec fn reading_fault(read: Readings, lost: spec_fn(Seq<u8>) -> Fault, x: Seq<u8>) -> Fault {
    if read.dom().contains(x) {
        read[x]->Err_0
    } else {
        lost(x)
    }
}

spec fn walk_sound(
    read: Readings,
    roots: Set<Seq<u8>>,
    stack: Seq<Seq<u8>>,
    seen: Seq<Seq<u8>>,
) -> bool {
    let links = read_links(read);
    &&& seen.no_duplicates()
    &&& forall|x: Seq<u8>| #[trigger]
        seen.contains(x) ==> crate::reach::reaches(links, roots, x) && readable(read, x)
    &&& forall|x: Seq<u8>| #[trigger] stack.contains(x) ==> crate::reach::reaches(links, roots, x)
    &&& forall|x: Seq<u8>| #[trigger] roots.contains(x) ==> seen.contains(x) || stack.contains(x)
    &&& forall|x: Seq<u8>, y: Seq<u8>|
        seen.contains(x) && #[trigger] crate::reach::targets(links, x).contains(y)
            ==> seen.contains(y) || stack.contains(y)
}

proof fn lemma_walked(
    read: Readings,
    lost: spec_fn(Seq<u8>) -> Fault,
    roots: Set<Seq<u8>>,
    stack: Seq<Seq<u8>>,
    seen: Seq<Seq<u8>>,
)
    requires
        read.dom().finite(),
        walk_sound(read, roots, stack, seen),
    ensures
        match walked(read, lost, stack, seen) {
            Ok(all) => all.no_duplicates() && forall|x: Seq<u8>| #[trigger]
                all.contains(x) <==> crate::reach::reaches(read_links(read), roots, x),
            Err(e) => exists|x: Seq<u8>| #[trigger]
                crate::reach::reaches(read_links(read), roots, x) && !readable(read, x) && e
                    == reading_fault(read, lost, x),
        },
        walked(read, lost, stack, seen) is Ok ==> forall|x: Seq<u8>| #[trigger]
            crate::reach::reaches(read_links(read), roots, x) ==> readable(read, x),
    decreases read.dom().difference(seen.to_set()).len(), stack.len(),
{
    let links = read_links(read);
    if stack.len() == 0 {
        assert forall|x: Seq<u8>| #[trigger] crate::reach::reaches(links, roots, x) implies seen.contains(
            x,
        ) by {
            crate::reach::lemma_reached_within(links, roots, seen.to_set(), x);
        }
    } else {
        let c = stack.last();
        let rest = stack.drop_last();
        assert(stack.contains(c));
        assert forall|x: Seq<u8>| stack.contains(x) && x != c implies rest.contains(x) by {
            let k = choose|k: int| 0 <= k < stack.len() && stack[k] == x;
            assert(rest[k] == x);
        }
        assert forall|x: Seq<u8>| #[trigger] rest.contains(x) implies stack.contains(x) by {
            let k = choose|k: int| 0 <= k < rest.len() && rest[k] == x;
            assert(stack[k] == x);
        }
        if seen.contains(c) {
            lemma_walked(read, lost, roots, rest, seen);
        } else if readable(read, c) {
            let parents = read[c]->Ok_0;
            let next = rest + parents;
            let more = seen.push(c);
            lemma_push_contains(seen, c);
            assert forall|x: Seq<u8>| #[trigger] next.contains(x) <==> rest.contains(x)
                || parents.contains(x) by {
                if next.contains(x) {
                    let k = choose|k: int| 0 <= k < next.len() && next[k] == x;
                    if k < rest.len() {
                        assert(rest[k] == x);
                    } else {
                        assert(parents[k - rest.len()] == x);
                    }
                }
                if rest.contains(x) {
                    let k = choose|k: int| 0 <= k < rest.len() && rest[k] == x;
                    assert(next[k] == x);
                }
                if parents.contains(x) {
                    let k = choose|k: int| 0 <= k < parents.len() && parents[k] == x;
                    assert(next[rest.len() + k] == x);
                }
            }
            assert(crate::reach::targets(links, c) == parents);
            assert forall|x: Seq<u8>| #[trigger] next.contains(x) implies crate::reach::reaches(
                links,
                roots,
                x,
            ) by {
                if parents.contains(x) {
                    crate::reach::lemma_target_reached(links, roots, c, x);
                }
            }
            assert(walk_sound(read, roots, next, more));
            lemma_unseen_shrinks(read, seen, c);
            lemma_walked(read, lost, roots, next, more);
        }
    }
}

/// A walk that ends well has seen exactly the commits that can be reached, each
/// once, and all of them can be read; it fails exactly where one cannot, with the
/// fault of such a commit.
pub proof fn law_walk_sees_the_history(
    read: Readings,
    lost: spec_fn(Seq<u8>) -> Fault,
    tip: Seq<u8>,
)
    requires
        read.dom().finite(),
    ensures
        match history(read, lost, tip) {
            Ok(all) => {
                &&& all.no_duplicates()
                &&& forall|x: Seq<u8>| #[trigger]
                    all.contains(x) <==> crate::reach::reaches(read_links(read), set![tip], x)
                &&& forall|x: Seq<u8>| #[trigger] all.contains(x) ==> readable(read, x)
            },
            Err(e) => exists|x: Seq<u8>| #[trigger]
                crate::reach::reaches(read_links(read), set![tip], x) && !readable(read, x) && e
                    == reading_fault(read, lost, x),
        },
{
    let links = read_links(read);
    let roots = set![tip];
    let stack = seq![tip];
    assert(stack[0] == tip);
    assert forall|x: Seq<u8>| #[trigger] stack.contains(x) implies crate::reach::reaches(
        links,
        roots,
        x,
    ) by {
        crate::reach::lemma_root_reached(links, roots, x);
    }
    assert forall|x: Seq<u8>| #[trigger] roots.contains(x) implies stack.contains(x) by {
        assert(stack[0] == x);
    }
    lemma_walked(read, lost, roots, stack, seq![]);
}

} // verus!
