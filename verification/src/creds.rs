//! Credentials for remotes that ask for them.
//!
//! The issued values are no cryptographic identities: a secret is derived from a
//! counter and a clock reading with BLAKE3. Remotes trust any credential that was
//! issued locally.

use vstd::prelude::*;

use crate::digest::{blake3_of, hex_of};
use crate::model::{VersionError, VersionResult};
use crate::octets::push_le;
use crate::text::{str_eq, Dup};

verus! {

/// A credential: its id and its secret.
#[derive(Clone)]
pub struct Credential {
    pub kid: String,
    pub secret: [u8; 32],
}

/// What a credential stands for.
pub struct CredModel {
    pub kid: Seq<char>,
    pub secret: Seq<u8>,
}

impl DeepView for Credential {
    type V = CredModel;

    open spec fn deep_view(&self) -> CredModel {
        CredModel { kid: self.kid@, secret: self.secret@ }
    }
}

impl Dup for Credential {
    fn dup(&self) -> (r: Self) {
        Credential { kid: self.kid.clone(), secret: self.secret }
    }
}

/// The active id, then the others in the order of their issue.
pub open spec fn listed_kids(kids: Seq<Seq<char>>, active: Option<Seq<char>>) -> Seq<Seq<char>> {
    match active {
        None => kids,
        Some(a) => seq![a] + kids.filter(|k: Seq<char>| k != a),
    }
}

/// Is an id another one?
pub open spec fn other_than(kid: Seq<char>) -> spec_fn(Seq<char>) -> bool {
    |k: Seq<char>| k != kid
}

/// The ids without one.
pub open spec fn without_kid(kids: Seq<Seq<char>>, kid: Seq<char>) -> Seq<Seq<char>> {
    kids.filter(other_than(kid))
}

/// Keeps credentials.
pub trait CredStore: Sized {
    /// The ids, in the order of their issue.
    spec fn kids(&self) -> Seq<Seq<char>>;

    /// The active id.
    spec fn active_kid(&self) -> Option<Seq<char>>;

    /// Is there room for another credential?
    spec fn has_room(&self) -> bool;

    /// Issue a credential and make it the active one.
    fn issue(&mut self) -> (r: Credential)
        requires
            old(self).has_room(),
        ensures
            final(self).kids() == old(self).kids().push(r.kid@),
            final(self).active_kid() == Some(r.kid@),
    ;

    /// The ids, the active one first.
    fn list(&self) -> (r: Vec<String>)
        ensures
            r.deep_view() == listed_kids(self.kids(), self.active_kid()),
    ;

    /// The active id.
    fn active(&self) -> (r: Option<String>)
        ensures
            r.deep_view() == self.active_kid(),
    ;

    /// Make an issued credential the active one.
    fn set_active(&mut self, kid: &str) -> (r: VersionResult<()>)
        ensures
            r is Ok <==> old(self).kids().contains(kid@),
            r matches Err(e) ==> e is NoSuchCredential,
            final(self).kids() == old(self).kids(),
            final(self).active_kid() == (if r is Ok {
                Some(kid@)
            } else {
                old(self).active_kid()
            }),
    ;

    /// Remove a credential; where it was the active one, none is.
    fn remove(&mut self, kid: &str) -> (r: VersionResult<()>)
        ensures
            r is Ok <==> old(self).kids().contains(kid@),
            r matches Err(e) ==> e is NoSuchCredential,
            final(self).kids() == without_kid(old(self).kids(), kid@),
            final(self).active_kid() == (if r is Ok && old(self).active_kid() == Some(kid@) {
                None
            } else {
                old(self).active_kid()
            }),
    ;
}

/// Credentials in memory.
pub struct MemCredStore {
    creds: Vec<Credential>,
    active: Option<String>,
    counter: u64,
    now_nanos: u64,
}

/// What credentials in memory stand for.
pub struct CredsModel {
    pub creds: Seq<CredModel>,
    pub active: Option<Seq<char>>,
    pub counter: u64,
    pub now_nanos: u64,
}

impl DeepView for MemCredStore {
    type V = CredsModel;

    closed spec fn deep_view(&self) -> CredsModel {
        CredsModel {
            creds: self.creds.deep_view(),
            active: self.active.deep_view(),
            counter: self.counter,
            now_nanos: self.now_nanos,
        }
    }
}

/// What a secret is derived from: the counter, the clock, and the counter again
/// with its bytes in the other order.
pub open spec fn seed(counter: u64, now_nanos: u64) -> Seq<u8> {
    crate::octets::le_bytes(counter as nat, 8) + crate::octets::le_bytes(now_nanos as nat, 8)
        + crate::octets::le_bytes(counter as nat, 8).reverse()
}

/// The credential of a counter and a clock reading.
pub open spec fn issued(counter: u64, now_nanos: u64) -> CredModel {
    let secret = crate::digest::blake3_digest(seed(counter, now_nanos));
    CredModel { kid: crate::digest::hex_text(crate::digest::blake3_digest(secret)), secret }
}

/// The credentials after one more was issued.
pub open spec fn with_issued(s: CredsModel) -> CredsModel {
    let counter = (s.counter + 1) as u64;
    let c = issued(counter, s.now_nanos);
    CredsModel { creds: s.creds.push(c), active: Some(c.kid), counter, ..s }
}

/// No credentials yet.
pub open spec fn no_creds() -> CredsModel {
    CredsModel { creds: seq![], active: None, counter: 0, now_nanos: 0 }
}

/// Has a credential another id?
pub open spec fn has_other_kid(kid: Seq<char>) -> spec_fn(CredModel) -> bool {
    |c: CredModel| c.kid != kid
}

/// The ids of credentials.
pub open spec fn kids_of(creds: Seq<CredModel>) -> Seq<Seq<char>> {
    creds.map_values(|c: CredModel| c.kid)
}

/// What can be done to credentials in memory.
pub enum CredStep {
    SetNow(u64),
    Issue,
    SetActive(Seq<char>),
    Remove(Seq<char>),
}

/// The credentials after one step.
pub open spec fn stepped(s: CredsModel, step: CredStep) -> CredsModel {
    match step {
        CredStep::SetNow(now_nanos) => CredsModel { now_nanos, ..s },
        CredStep::Issue => with_issued(s),
        CredStep::SetActive(kid) => if kids_of(s.creds).contains(kid) {
            CredsModel { active: Some(kid), ..s }
        } else {
            s
        },
        CredStep::Remove(kid) => if kids_of(s.creds).contains(kid) {
            CredsModel {
                creds: s.creds.filter(has_other_kid(kid)),
                active: if s.active == Some(kid) {
                    None
                } else {
                    s.active
                },
                ..s
            }
        } else {
            s
        },
    }
}

fn issue_at(counter: u64, now_nanos: u64) -> (r: Credential)
    ensures
        r.deep_view() == issued(counter, now_nanos),
{
    let mut data: Vec<u8> = Vec::new();
    push_le(&mut data, counter, 8);
    push_le(&mut data, now_nanos, 8);
    let mut forward: Vec<u8> = Vec::new();
    push_le(&mut forward, counter, 8);
    let ghost f = forward@;
    let ghost start = data@;
    let mut i: usize = forward.len();
    assert(start =~= crate::octets::le_bytes(counter as nat, 8) + crate::octets::le_bytes(
        now_nanos as nat,
        8,
    ));
    while i > 0
        invariant
            i <= forward@.len(),
            f == forward@,
            data@ == start + f.reverse().take(f.len() - i),
        decreases i,
    {
        i = i - 1;
        data.push(forward[i]);
        assert(data@ =~= start + f.reverse().take(f.len() - i));
    }
    assert(f.reverse().take(f.len() as int) =~= f.reverse());
    assert(f =~= crate::octets::le_bytes(counter as nat, 8));
    assert(data@ =~= seed(counter, now_nanos));
    let secret = blake3_of(data.as_slice());
    let hash = blake3_of(vstd::array::array_as_slice(&secret));
    let kid = hex_of(vstd::array::array_as_slice(&hash));
    Credential { kid, secret }
}

impl MemCredStore {
    pub fn new() -> (r: Self)
        ensures
            r.deep_view() == no_creds(),
    {
        let r = MemCredStore { creds: Vec::new(), active: None, counter: 0, now_nanos: 0 };
        assert(r.creds.deep_view() =~= seq![]);
        r
    }

    /// Set the clock reading for the next credentials.
    pub fn set_now(&mut self, now_nanos: u64)
        ensures
            final(self).deep_view() == stepped(
                old(self).deep_view(),
                CredStep::SetNow(now_nanos),
            ),
    {
        self.now_nanos = now_nanos;
    }

    /// Is there room for another credential?
    pub fn room(&self) -> (r: bool)
        ensures
            r == self.has_room(),
    {
        self.counter < u64::MAX
    }

    fn find(&self, kid: &str) -> (r: bool)
        ensures
            r == self.kids().contains(kid@),
    {
        let ghost kids = self.kids();
        let mut i: usize = 0;
        while i < self.creds.len()
            invariant
                i <= self.creds@.len(),
                kids == self.kids(),
                forall|j: int| 0 <= j < i ==> #[trigger] kids[j] != kid@,
            decreases self.creds.len() - i,
        {
            assert(kids[i as int] == self.creds@[i as int].kid@);
            if str_eq(self.creds[i].kid.as_str(), kid) {
                assert(kids.contains(kid@));
                return true;
            }
            i = i + 1;
        }
        false
    }
}

impl Default for MemCredStore {
    fn default() -> (r: Self)
        ensures
            r.deep_view() == no_creds(),
    {
        Self::new()
    }
}

impl CredStore for MemCredStore {
    open spec fn kids(&self) -> Seq<Seq<char>> {
        kids_of(self.deep_view().creds)
    }

    open spec fn active_kid(&self) -> Option<Seq<char>> {
        self.deep_view().active
    }

    open spec fn has_room(&self) -> bool {
        self.deep_view().counter < u64::MAX
    }

    fn issue(&mut self) -> (r: Credential)
        ensures
            final(self).deep_view() == stepped(old(self).deep_view(), CredStep::Issue),
            r.deep_view() == with_issued(old(self).deep_view()).creds.last(),
    {
        let ghost s = self.deep_view();
        self.counter = self.counter + 1;
        let c = issue_at(self.counter, self.now_nanos);
        self.active = Some(c.kid.clone());
        self.creds.push(c.dup());
        proof {
            let m = c.deep_view();
            assert(self.creds.deep_view() =~= s.creds.push(m));
            assert(kids_of(s.creds.push(m)) =~= kids_of(s.creds).push(m.kid));
        }
        c
    }

    fn list(&self) -> (r: Vec<String>) {
        let ghost kids = self.kids();
        let ghost a = self.active_kid();
        let ghost p = |k: Seq<char>| a is None || k != a->0;
        let mut out: Vec<String> = Vec::new();
        match &self.active {
            Some(k) => {
                out.push(k.clone());
            },
            None => {},
        }
        let ghost head = out.deep_view();
        let mut i: usize = 0;
        proof {
            reveal(Seq::filter);
            assert(head =~= (if a is Some {
                seq![a->0]
            } else {
                seq![]
            }));
            assert(head + kids.take(0).filter(p) =~= head);
        }
        while i < self.creds.len()
            invariant
                i <= self.creds@.len(),
                kids == self.kids(),
                a == self.active_kid(),
                p == (|k: Seq<char>| a is None || k != a->0),
                out.deep_view() == head + kids.take(i as int).filter(p),
            decreases self.creds.len() - i,
        {
            let ghost before = out.deep_view();
            let ghost k = kids[i as int];
            proof {
                reveal(Seq::filter);
                assert(k == self.creds@[i as int].kid@);
                assert(kids.take(i + 1).drop_last() =~= kids.take(i as int));
                assert(kids.take(i + 1).last() == k);
            }
            let shown = match &self.active {
                Some(x) => str_eq(x.as_str(), self.creds[i].kid.as_str()),
                None => false,
            };
            if !shown {
                out.push(self.creds[i].kid.clone());
                assert(out.deep_view() =~= before.push(k));
                assert(head + kids.take(i as int).filter(p).push(k) =~= before.push(k));
            }
            i = i + 1;
        }
        proof {
            assert(kids.take(i as int) =~= kids);
            match a {
                Some(x) => {
                    assert(p =~= (|k: Seq<char>| k != x));
                },
                None => {
                    lemma_filter_all(kids, p);
                },
            }
        }
        out
    }

    fn active(&self) -> (r: Option<String>) {
        self.active.dup()
    }

    fn set_active(&mut self, kid: &str) -> (r: VersionResult<()>)
        ensures
            final(self).deep_view() == stepped(
                old(self).deep_view(),
                CredStep::SetActive(kid@),
            ),
    {
        if self.find(kid) {
            self.active = Some(kid.to_owned());
            Ok(())
        } else {
            Err(VersionError::NoSuchCredential)
        }
    }

    fn remove(&mut self, kid: &str) -> (r: VersionResult<()>)
        ensures
            final(self).deep_view() == stepped(old(self).deep_view(), CredStep::Remove(kid@)),
    {
        let ghost all = self.deep_view().creds;
        let ghost kids = self.kids();
        let ghost p = other_than(kid@);
        let ghost q = has_other_kid(kid@);
        proof {
            lemma_kids_filter(all, kid@);
        }
        if !self.find(kid) {
            proof {
                lemma_filter_all(kids, p);
            }
            return Err(VersionError::NoSuchCredential);
        }
        let mut kept: Vec<Credential> = Vec::new();
        let mut i: usize = 0;
        proof {
            reveal(Seq::filter);
            assert(kept.deep_view() =~= all.take(0).filter(q));
        }
        while i < self.creds.len()
            invariant
                i <= self.creds@.len(),
                all == self.deep_view().creds,
                q == has_other_kid(kid@),
                kept.deep_view() == all.take(i as int).filter(q),
            decreases self.creds.len() - i,
        {
            let ghost before = kept.deep_view();
            proof {
                reveal(Seq::filter);
                assert(all.take(i + 1).drop_last() =~= all.take(i as int));
                assert(all.take(i + 1).last() == self.creds@[i as int].deep_view());
            }
            if !str_eq(self.creds[i].kid.as_str(), kid) {
                kept.push(self.creds[i].dup());
                assert(kept.deep_view() =~= before.push(self.creds@[i as int].deep_view()));
            }
            i = i + 1;
        }
        assert(all.take(i as int) =~= all);
        self.creds = kept;
        let was_active = match &self.active {
            Some(x) => str_eq(x.as_str(), kid),
            None => false,
        };
        if was_active {
            self.active = None;
        }
        Ok(())
    }
}

proof fn lemma_kids_filter(creds: Seq<CredModel>, kid: Seq<char>)
    ensures
        kids_of(creds.filter(has_other_kid(kid))) == without_kid(kids_of(creds), kid),
    decreases creds.len(),
{
    reveal(Seq::filter);
    let p = other_than(kid);
    let q = has_other_kid(kid);
    let kids = kids_of(creds);
    if creds.len() > 0 {
        let d = creds.drop_last();
        lemma_kids_filter(d, kid);
        assert(kids.drop_last() =~= kids_of(d));
        let f = d.filter(q);
        assert(kids_of(f.push(creds.last())) =~= kids_of(f).push(creds.last().kid));
    } else {
        assert(kids_of(creds.filter(q)) =~= kids.filter(p));
    }
}

proof fn lemma_filter_all<A>(s: Seq<A>, p: spec_fn(A) -> bool)
    requires
        forall|i: int| 0 <= i < s.len() ==> p(#[trigger] s[i]),
    ensures
        s.filter(p) == s,
    decreases s.len(),
{
    reveal(Seq::filter);
    if s.len() > 0 {
        let d = s.drop_last();
        assert forall|i: int| 0 <= i < d.len() implies p(#[trigger] d[i]) by {
            assert(d[i] == s[i]);
        }
        lemma_filter_all(d, p);
        assert(p(s[s.len() - 1]));
        assert(s =~= d.push(s.last()));
    }
}

pub proof fn lemma_filter_distinct<A>(s: Seq<A>, p: spec_fn(A) -> bool)
    ensures
        forall|x: A| #[trigger] s.filter(p).contains(x) <==> s.contains(x) && p(x),
        s.no_duplicates() ==> s.filter(p).no_duplicates(),
    decreases s.len(),
{
    reveal(Seq::filter);
    if s.len() > 0 {
        let d = s.drop_last();
        let f = d.filter(p);
        let y = s.last();
        lemma_filter_distinct(d, p);
        assert forall|x: A| #[trigger] s.contains(x) <==> d.contains(x) || x == y by {
            if s.contains(x) {
                let k = choose|k: int| 0 <= k < s.len() && s[k] == x;
                if k < d.len() {
                    assert(d[k] == x);
                }
            }
            if d.contains(x) {
                let k = choose|k: int| 0 <= k < d.len() && d[k] == x;
                assert(s[k] == x);
            }
            assert(s[s.len() - 1] == y);
        }
        if p(y) {
            assert forall|x: A| #[trigger] f.push(y).contains(x) <==> f.contains(x) || x == y by {
                if f.contains(x) {
                    let k = choose|k: int| 0 <= k < f.len() && f[k] == x;
                    assert(f.push(y)[k] == x);
                }
                assert(f.push(y)[f.len() as int] == y);
            }
        }
        if s.no_duplicates() {
            assert forall|a: int, b: int| 0 <= a < d.len() && 0 <= b < d.len() && a != b implies d[a]
                != d[b] by {
                assert(s[a] != s[b]);
            }
            if d.contains(y) {
                let k = choose|k: int| 0 <= k < d.len() && d[k] == y;
                assert(s[k] != s[s.len() - 1]);
            }
            assert(!f.contains(y));
        }
    }
}

/// Has every credential an id of its own, and is the active one held?
pub open spec fn in_good_order(kids: Seq<Seq<char>>, active: Option<Seq<char>>) -> bool {
    kids.no_duplicates() && (active matches Some(a) ==> kids.contains(a))
}

/// The list names each held credential once and no other, the active one first.
pub proof fn law_each_credential_is_listed_once(kids: Seq<Seq<char>>, active: Option<Seq<char>>)
    requires
        in_good_order(kids, active),
    ensures
        listed_kids(kids, active).no_duplicates(),
        forall|k: Seq<char>| #[trigger]
            listed_kids(kids, active).contains(k) <==> kids.contains(k),
        active matches Some(a) ==> listed_kids(kids, active)[0] == a,
{
    if let Some(a) = active {
        let p = |k: Seq<char>| k != a;
        let rest = kids.filter(p);
        let all = listed_kids(kids, active);
        lemma_filter_distinct(kids, p);
        assert(!rest.contains(a));
        assert forall|k: Seq<char>| #[trigger] all.contains(k) <==> kids.contains(k) by {
            if all.contains(k) {
                let j = choose|j: int| 0 <= j < all.len() && all[j] == k;
                if j > 0 {
                    assert(rest[j - 1] == k);
                    assert(rest.contains(k));
                }
            }
            if rest.contains(k) {
                let j = choose|j: int| 0 <= j < rest.len() && rest[j] == k;
                assert(all[j + 1] == k);
            }
            assert(all[0] == a);
        }
        assert forall|i: int, j: int|
            0 <= i < all.len() && 0 <= j < all.len() && i != j implies all[i] != all[j] by {
            if i > 0 {
                assert(rest[i - 1] == all[i]);
                assert(rest.contains(all[i]));
            }
            if j > 0 {
                assert(rest[j - 1] == all[j]);
                assert(rest.contains(all[j]));
            }
        }
    }
}

/// Issuing an id that is not held yet, making a held credential the active one, and
/// removing one keep the credentials in good order.
pub proof fn law_good_order_is_kept(kids: Seq<Seq<char>>, active: Option<Seq<char>>, kid: Seq<char>)
    requires
        in_good_order(kids, active),
    ensures
        !kids.contains(kid) ==> in_good_order(kids.push(kid), Some(kid)),
        kids.contains(kid) ==> in_good_order(kids, Some(kid)),
        in_good_order(
            without_kid(kids, kid),
            if active == Some(kid) {
                None
            } else {
                active
            },
        ),
{
    assert(kids.push(kid)[kids.len() as int] == kid);
    if !kids.contains(kid) {
        assert forall|i: int, j: int|
            0 <= i < kids.push(kid).len() && 0 <= j < kids.push(kid).len() && i
                != j implies kids.push(kid)[i] != kids.push(kid)[j] by {
            if i < kids.len() {
                assert(kids.contains(kids[i]));
            }
            if j < kids.len() {
                assert(kids.contains(kids[j]));
            }
        }
    }
    let p = other_than(kid);
    lemma_filter_distinct(kids, p);
    if active is Some && active != Some(kid) {
        assert(p(active->0));
        assert(kids.filter(p).contains(active->0));
    }
}

/// The credentials after steps from none on.
pub open spec fn creds_after(steps: Seq<CredStep>) -> CredsModel
    decreases steps.len(),
{
    if steps.len() == 0 {
        no_creds()
    } else {
        stepped(creds_after(steps.drop_last()), steps.last())
    }
}

/// The ids that steps issued, in order.
pub open spec fn kids_issued(steps: Seq<CredStep>) -> Seq<Seq<char>>
    decreases steps.len(),
{
    if steps.len() == 0 {
        seq![]
    } else {
        let before = kids_issued(steps.drop_last());
        if steps.last() is Issue {
            before.push(with_issued(creds_after(steps.drop_last())).creds.last().kid)
        } else {
            before
        }
    }
}

/// Was an id removed after it was issued?
pub open spec fn removed_since(steps: Seq<CredStep>, kid: Seq<char>) -> bool {
    exists|j: int|
        0 <= j < steps.len() && #[trigger] steps[j] == CredStep::Remove(kid) && kids_issued(
            steps.take(j),
        ).contains(kid)
}

/// Is an id, once issued, there still?
pub open spec fn not_removed(steps: Seq<CredStep>) -> spec_fn(Seq<char>) -> bool {
    |kid: Seq<char>| !removed_since(steps, kid)
}

proof fn lemma_issued_grows(steps: Seq<CredStep>, j: int, kid: Seq<char>)
    requires
        0 <= j <= steps.len(),
        kids_issued(steps.take(j)).contains(kid),
    ensures
        kids_issued(steps).contains(kid),
    decreases steps.len() - j,
{
    if j < steps.len() {
        let now = steps.take(j);
        let next = steps.take(j + 1);
        assert(next.drop_last() =~= now);
        let k = choose|k: int| 0 <= k < kids_issued(now).len() && kids_issued(now)[k] == kid;
        assert(kids_issued(next)[k] == kid);
        lemma_issued_grows(steps, j + 1, kid);
    } else {
        assert(steps.take(j) =~= steps);
    }
}

/// What a step adds to the removals.
proof fn lemma_removed_since(steps: Seq<CredStep>, kid: Seq<char>)
    requires
        steps.len() > 0,
    ensures
        removed_since(steps, kid) <==> removed_since(steps.drop_last(), kid) || (steps.last()
            == CredStep::Remove(kid) && kids_issued(steps.drop_last()).contains(kid)),
{
    let d = steps.drop_last();
    if removed_since(steps, kid) {
        let j = choose|j: int|
            0 <= j < steps.len() && #[trigger] steps[j] == CredStep::Remove(kid) && kids_issued(
                steps.take(j),
            ).contains(kid);
        if j < d.len() {
            assert(d[j] == steps[j]);
            assert(d.take(j) =~= steps.take(j));
        } else {
            assert(steps.take(j) =~= d);
        }
    }
    if removed_since(d, kid) {
        let j = choose|j: int|
            0 <= j < d.len() && #[trigger] d[j] == CredStep::Remove(kid) && kids_issued(
                d.take(j),
            ).contains(kid);
        assert(steps[j] == d[j]);
        assert(d.take(j) =~= steps.take(j));
    }
    if steps.last() == CredStep::Remove(kid) && kids_issued(d).contains(kid) {
        assert(steps.take(d.len() as int) =~= d);
        assert(steps[d.len() as int] == CredStep::Remove(kid));
    }
}

proof fn lemma_filter_twice<A>(
    s: Seq<A>,
    p: spec_fn(A) -> bool,
    q: spec_fn(A) -> bool,
    both: spec_fn(A) -> bool,
)
    requires
        forall|i: int|
            0 <= i < s.len() ==> both(#[trigger] s[i]) == (p(s[i]) && q(s[i])),
    ensures
        s.filter(p).filter(q) == s.filter(both),
    decreases s.len(),
{
    reveal(Seq::filter);
    if s.len() > 0 {
        let d = s.drop_last();
        assert forall|i: int| 0 <= i < d.len() implies both(#[trigger] d[i]) == (p(d[i]) && q(d[i])) by {
            assert(d[i] == s[i]);
        }
        lemma_filter_twice(d, p, q, both);
        assert(both(s[s.len() - 1]) == (p(s.last()) && q(s.last())));
        let f = d.filter(p);
        if p(s.last()) {
            assert(f.push(s.last()).drop_last() =~= f);
        }
    }
}

/// What is held after any steps from no credentials on, whose issued ids are all
/// different: the issued ids without those that were removed since, in the order of
/// their issue. The list names each of them once and no other, the active one first;
/// the active one is held. An id that was just issued is the first of the list, and
/// after the active one was removed there is none.
pub proof fn law_list_names_what_is_left(steps: Seq<CredStep>)
    requires
        kids_issued(steps).no_duplicates(),
    ensures
        ({
            let s = creds_after(steps);
            let held = kids_of(s.creds);
            let list = listed_kids(held, s.active);
            &&& held == kids_issued(steps).filter(not_removed(steps))
            &&& in_good_order(held, s.active)
            &&& list.no_duplicates()
            &&& forall|k: Seq<char>| #[trigger]
                list.contains(k) <==> kids_issued(steps).contains(k) && !removed_since(steps, k)
            &&& s.active is None ==> list == held
            &&& s.active matches Some(a) ==> list == seq![a] + without_kid(held, a)
            &&& steps.len() > 0 && steps.last() is Issue ==> list[0] == kids_issued(steps).last()
            &&& steps.len() > 0 && steps.last() is Remove && creds_after(steps.drop_last()).active
                == Some(steps.last()->Remove_0) ==> s.active is None
        }),
{
    let s = creds_after(steps);
    let held = kids_of(s.creds);
    let p = not_removed(steps);
    let issued = kids_issued(steps);
    if steps.len() == 0 {
        reveal(Seq::filter);
        assert(held =~= seq![]);
    } else {
        lemma_step_keeps_what_is_left(steps);
    }
    law_each_credential_is_listed_once(held, s.active);
    lemma_filter_distinct(issued, p);
    if let Some(a) = s.active {
        assert(other_than(a) =~= (|k: Seq<char>| k != a));
    }
}

proof fn lemma_step_keeps_what_is_left(steps: Seq<CredStep>)
    requires
        steps.len() > 0,
        kids_issued(steps).no_duplicates(),
    ensures
        ({
            let s = creds_after(steps);
            let held = kids_of(s.creds);
            &&& held == kids_issued(steps).filter(not_removed(steps))
            &&& in_good_order(held, s.active)
            &&& steps.last() is Issue ==> s.active == Some(kids_issued(steps).last())
            &&& steps.last() is Remove && creds_after(steps.drop_last()).active == Some(
                steps.last()->Remove_0,
            ) ==> s.active is None
        }),
    decreases steps.len(),
{
    let d = steps.drop_last();
    let before = creds_after(d);
    let held = kids_of(before.creds);
    let issued = kids_issued(d);
    let p = not_removed(d);
    let q = not_removed(steps);
    if issued.len() < kids_issued(steps).len() {
        assert(kids_issued(steps).drop_last() =~= issued);
    }
    assert forall|i: int, j: int| 0 <= i < issued.len() && 0 <= j < issued.len() && i
        != j implies issued[i] != issued[j] by {
        assert(kids_issued(steps)[i] != kids_issued(steps)[j]);
    }
    if d.len() > 0 {
        lemma_step_keeps_what_is_left(d);
    } else {
        reveal(Seq::filter);
        assert(held =~= seq![]);
        assert(issued.filter(p) =~= seq![]);
    }
    assert forall|k: Seq<char>| #[trigger] q(k) == (p(k) && !(steps.last() == CredStep::Remove(k)
        && issued.contains(k))) by {
        lemma_removed_since(steps, k);
    }
    lemma_filter_distinct(issued, p);
    match steps.last() {
        CredStep::SetNow(_) => {
            assert(q =~= p);
        },
        CredStep::SetActive(kid) => {
            assert(q =~= p);
            law_good_order_is_kept(held, before.active, kid);
        },
        CredStep::Issue => {
            assert(q =~= p);
            let c = with_issued(before).creds.last();
            let all = kids_issued(steps);
            assert(kids_of(before.creds.push(c)) =~= held.push(c.kid));
            if issued.contains(c.kid) {
                let k = choose|k: int| 0 <= k < issued.len() && issued[k] == c.kid;
                assert(all[k] != all[all.len() - 1]);
            }
            if removed_since(d, c.kid) {
                let j = choose|j: int|
                    0 <= j < d.len() && #[trigger] d[j] == CredStep::Remove(c.kid) && kids_issued(
                        d.take(j),
                    ).contains(c.kid);
                lemma_issued_grows(d, j, c.kid);
            }
            assert(p(c.kid));
            assert(all.filter(p) == issued.filter(p).push(c.kid)) by {
                reveal(Seq::filter);
            }
            law_good_order_is_kept(held, before.active, c.kid);
        },
        CredStep::Remove(kid) => {
            lemma_kids_filter(before.creds, kid);
            law_good_order_is_kept(held, before.active, kid);
            let r = other_than(kid);
            if !held.contains(kid) {
                lemma_filter_all(held, r);
            }
            assert forall|i: int| 0 <= i < issued.len() implies q(#[trigger] issued[i]) == (p(
                issued[i],
            ) && r(issued[i])) by {
                assert(issued.contains(issued[i]));
            }
            lemma_filter_twice(issued, p, r, q);
        },
    }
}

/// Credentials that were issued with the same counter and clock reading are the
/// same.
pub proof fn law_issue_is_fixed_by_counter_and_clock(a: CredsModel, b: CredsModel)
    requires
        a.counter == b.counter,
        a.now_nanos == b.now_nanos,
    ensures
        with_issued(a).creds.last() == with_issued(b).creds.last(),
{
}

/// A credential that is held can be made the active one; one that was removed is not held any
/// more, nor active, and every other one stays.
pub proof fn law_credentials_follow_their_steps(s: CredsModel, kid: Seq<char>, other: Seq<char>)
    requires
        kids_of(s.creds).contains(kid),
        other != kid,
    ensures
        stepped(s, CredStep::SetActive(kid)) == (CredsModel { active: Some(kid), ..s }),
        ({
            let t = stepped(s, CredStep::Remove(kid));
            &&& !kids_of(t.creds).contains(kid)
            &&& kids_of(t.creds).contains(other) <==> kids_of(s.creds).contains(other)
            &&& s.active == Some(kid) ==> t.active is None
            &&& s.active != Some(kid) ==> t.active == s.active
            &&& t.counter == s.counter && t.now_nanos == s.now_nanos
        }),
        !kids_of(s.creds).contains(other) ==> stepped(s, CredStep::SetActive(other)) == s
            && stepped(s, CredStep::Remove(other)) == s,
{
    let p = has_other_kid(kid);
    let left = s.creds.filter(p);
    lemma_filter_distinct(s.creds, p);
    let kids = kids_of(left);
    if kids.contains(kid) {
        let i = choose|i: int| 0 <= i < kids.len() && kids[i] == kid;
        assert(left.contains(left[i]));
    }
    if kids.contains(other) {
        let i = choose|i: int| 0 <= i < kids.len() && kids[i] == other;
        assert(left.contains(left[i]));
        let k = choose|k: int| 0 <= k < s.creds.len() && s.creds[k] == left[i];
        assert(kids_of(s.creds)[k] == other);
    }
    if kids_of(s.creds).contains(other) {
        let k = choose|k: int| 0 <= k < kids_of(s.creds).len() && kids_of(s.creds)[k] == other;
        assert(s.creds.contains(s.creds[k]));
        assert(p(s.creds[k]));
        assert(left.contains(s.creds[k]));
        let i = choose|i: int| 0 <= i < left.len() && left[i] == s.creds[k];
        assert(kids[i] == other);
    }
}

} // verus!
